//! Composing a suite with a context provider and the runner core.
//!
//! The suite's `test-context` import and the runner core's `factory` and
//! `test-context` imports have to resolve to one shared provider instance,
//! so that the `context` resource is one type. A bundle, which exports all
//! three interfaces, plugs straight into the runner core.

use vstd::prelude::*;
use wac_graph::types::Package;
use wac_graph::{CompositionGraph, EncodeOptions, NodeId, PackageId};

use crate::linking::{check_links, links};
use crate::opening::settled;
use crate::reading::{check_readable, readable};
use crate::shape::wasm_holds;
use crate::text::{among, has_prefix, owned, starts_with, views};
use crate::ties::{binaries, check_untangled, untangled};

verus! {

/// The interface that a suite exports.
pub const TESTS: &'static str = "polymorph:test/tests@0.1.0";

/// The interface of the context that a case runs with.
pub const CONTEXT: &'static str = "polymorph:test/test-context@0.1.0";

/// The interface by which the runner core makes contexts.
pub const FACTORY: &'static str = "polymorph:test-provider/factory@0.1.0";

/// The entry point of a composed component, up to its version.
pub const RUN_PREFIX: &'static str = "wasi:cli/run@";

// ---------------------------------------------------------------------
// The composition graph
// ---------------------------------------------------------------------

/// `wac_graph::CompositionGraph`: packages, their instances, and what feeds
/// what.
#[verifier::external_type_specification]
#[verifier::external_body]
pub struct ExCompositionGraph(wac_graph::CompositionGraph);

/// `wac_graph::PackageId`: which package of a graph.
#[verifier::external_type_specification]
#[verifier::external_body]
pub struct ExPackageId(wac_graph::PackageId);

/// `wac_graph::NodeId`: which node of a graph.
#[verifier::external_type_specification]
#[verifier::external_body]
pub struct ExNodeId(wac_graph::NodeId);

/// A node of a composition graph.
pub enum GraphNode {
    /// An instance of the package of that number.
    Instance(nat),
    /// An export of the node of that number, by name.
    Alias(nat, Seq<char>),
}

/// The packages of a graph, in order: name and bytes.
pub uninterp spec fn graph_packages(g: CompositionGraph) -> Seq<(Seq<char>, Seq<u8>)>;

/// The nodes of a graph, in order.
pub uninterp spec fn graph_nodes(g: CompositionGraph) -> Seq<GraphNode>;

/// The arguments of the instances of a graph, in order: the instance, the
/// import, and the node that feeds it.
pub uninterp spec fn graph_arguments(g: CompositionGraph) -> Seq<(nat, Seq<char>, nat)>;

/// The exports of a graph, in order: name and node.
pub uninterp spec fn graph_exports(g: CompositionGraph) -> Seq<(Seq<char>, nat)>;

/// The number of a package in its graph.
pub uninterp spec fn package_number(id: PackageId) -> nat;

/// The number of a node in its graph.
pub uninterp spec fn node_number(id: NodeId) -> nat;

/// What `Package::from_bytes` makes of a component: the names of its imports
/// and of its exports, or why it is none.
pub uninterp spec fn wac_world(name: Seq<char>, bytes: Seq<u8>) -> Result<
    (Seq<Seq<char>>, Seq<Seq<char>>),
    Seq<char>,
>;

/// Why a node cannot feed an import: what the subtype check of
/// `set_instantiation_argument` says, if it objects.
pub uninterp spec fn wac_mismatch(
    packages: Seq<(Seq<char>, Seq<u8>)>,
    nodes: Seq<GraphNode>,
    instance: nat,
    import: Seq<char>,
    argument: nat,
) -> Option<Seq<char>>;

/// Why a name is no export name, if it is none.
pub uninterp spec fn wac_export_name_fault(name: Seq<char>) -> Option<Seq<char>>;

/// What `CompositionGraph::encode` makes of a graph.
pub uninterp spec fn wac_encoded(
    packages: Seq<(Seq<char>, Seq<u8>)>,
    nodes: Seq<GraphNode>,
    arguments: Seq<(nat, Seq<char>, nat)>,
    exports: Seq<(Seq<char>, nat)>,
) -> Result<Seq<u8>, Seq<char>>;

/// A [`CompositionGraph`] over plain values.
#[verifier::ext_equal]
pub struct GraphView {
    pub packages: Seq<(Seq<char>, Seq<u8>)>,
    pub nodes: Seq<GraphNode>,
    pub arguments: Seq<(nat, Seq<char>, nat)>,
    pub exports: Seq<(Seq<char>, nat)>,
}

/// A [`CompositionGraph`] over plain values.
pub open spec fn graph_view(g: CompositionGraph) -> GraphView {
    GraphView {
        packages: graph_packages(g),
        nodes: graph_nodes(g),
        arguments: graph_arguments(g),
        exports: graph_exports(g),
    }
}

/// The imports of the `p`-th package.
pub open spec fn imports_of(g: GraphView, p: int) -> Seq<Seq<char>> {
    wac_world(g.packages[p].0, g.packages[p].1)->Ok_0.0
}

/// The exports of the `p`-th package.
pub open spec fn exports_of(g: GraphView, p: int) -> Seq<Seq<char>> {
    wac_world(g.packages[p].0, g.packages[p].1)->Ok_0.1
}

/// Is there a package of that name?
pub open spec fn has_package(g: GraphView, name: Seq<char>) -> bool {
    exists|i: int| 0 <= i < g.packages.len() && (#[trigger] g.packages[i]).0 == name
}

/// Is the `n`-th node an instance of a package?
pub open spec fn is_instance(g: GraphView, n: int) -> bool {
    0 <= n < g.nodes.len() && g.nodes[n] is Instance && g.nodes[n]->Instance_0 < g.packages.len()
}

/// The argument that an import of an instance has, if any.
pub open spec fn argument_for(g: GraphView, instance: nat, import: Seq<char>) -> Option<nat> {
    if exists|i: int|
        0 <= i < g.arguments.len() && (#[trigger] g.arguments[i]).0 == instance && g.arguments[i].1
            == import {
        Some(
            g.arguments[choose|i: int|
                0 <= i < g.arguments.len() && (#[trigger] g.arguments[i]).0 == instance
                    && g.arguments[i].1 == import].2,
        )
    } else {
        None
    }
}

/// The text of an error and of what caused it.
pub open spec fn caused(what: Seq<char>, why: Seq<char>) -> Seq<char> {
    what + ": "@ + why
}

/// `CompositionGraph::new`: a graph with nothing in it.
#[verifier::external_body]
fn new_graph() -> (g: CompositionGraph)
    ensures
        graph_view(g) == (GraphView {
            packages: Seq::empty(),
            nodes: Seq::empty(),
            arguments: Seq::empty(),
            exports: Seq::empty(),
        }),
{
    CompositionGraph::new()
}

/// `Package::from_bytes` reads a component into the types of the graph, and
/// `CompositionGraph::register_package` adds it to the packages of the same
/// graph, which it refuses only where one of that name is there. The outer
/// error is that of the reading, the inner one that of the registration. The
/// component is one that the reader does not give up on. What it reads, it has
/// validated, and validating sees to it that a handle comes after the resource
/// that it is for.
#[verifier::external_body]
fn add_package(g: &mut CompositionGraph, name: &str, bytes: &[u8]) -> (r: Result<
    Result<PackageId, String>,
    String,
>)
    requires
        readable(bytes@),
    ensures
        match r {
            Err(e) => wac_world(name@, bytes@) == Err::<
                (Seq<Seq<char>>, Seq<Seq<char>>),
                Seq<char>,
            >(e@),
            Ok(Err(e)) => wac_world(name@, bytes@) is Ok && wasm_holds(bytes@) && has_package(
                graph_view(*old(g)),
                name@,
            )
                && e@ == "package `"@ + name@ + "` has already been registered in the graph"@,
            Ok(Ok(id)) => wac_world(name@, bytes@) is Ok && wasm_holds(bytes@) && !has_package(
                graph_view(*old(g)),
                name@,
            )
                && package_number(id) == graph_packages(*old(g)).len() && graph_view(*final(g))
                == (GraphView {
                packages: graph_packages(*old(g)).push((name@, bytes@)),
                ..graph_view(*old(g))
            }),
        },
{
    match Package::from_bytes(name, None, bytes.to_vec(), g.types_mut()) {
        Ok(package) => Ok(g.register_package(package).map_err(|e| e.to_string())),
        Err(e) => Err(format!("{e:#}")),
    }
}

/// The names of the imports of a package, which `CompositionGraph::types`
/// holds.
#[verifier::external_body]
fn package_imports(g: &CompositionGraph, id: PackageId) -> (r: Vec<String>)
    requires
        package_number(id) < graph_packages(*g).len(),
    ensures
        views(r@) == imports_of(graph_view(*g), package_number(id) as int),
{
    g.types()[g[id].ty()].imports.keys().cloned().collect()
}

/// The names of the exports of a package, which `CompositionGraph::types`
/// holds.
#[verifier::external_body]
fn package_exports(g: &CompositionGraph, id: PackageId) -> (r: Vec<String>)
    requires
        package_number(id) < graph_packages(*g).len(),
    ensures
        views(r@) == exports_of(graph_view(*g), package_number(id) as int),
{
    g.types()[g[id].ty()].exports.keys().cloned().collect()
}

/// `CompositionGraph::instantiate` adds an instance of a package.
#[verifier::external_body]
fn instantiate(g: &mut CompositionGraph, id: PackageId) -> (n: NodeId)
    requires
        package_number(id) < graph_packages(*old(g)).len(),
    ensures
        node_number(n) == graph_nodes(*old(g)).len(),
        graph_view(*final(g)) == (GraphView {
            nodes: graph_nodes(*old(g)).push(GraphNode::Instance(package_number(id))),
            ..graph_view(*old(g))
        }),
{
    g.instantiate(id)
}

/// What aliasing an export of an instance does to the nodes: the alias that
/// is there already is kept.
pub open spec fn with_alias(g: GraphView, n: nat, name: Seq<char>) -> GraphView {
    if g.nodes.contains(GraphNode::Alias(n, name)) {
        g
    } else {
        GraphView { nodes: g.nodes.push(GraphNode::Alias(n, name)), ..g }
    }
}

/// `CompositionGraph::alias_instance_export` gives the node that stands for
/// an export of an instance, the same one every time, or says that the
/// instance has no such export.
#[verifier::external_body]
fn alias_export(g: &mut CompositionGraph, n: NodeId, name: &str) -> (r: Result<NodeId, String>)
    requires
        is_instance(graph_view(*old(g)), node_number(n) as int),
    ensures
        r is Ok <==> exports_of(
            graph_view(*old(g)),
            graph_nodes(*old(g))[node_number(n) as int]->Instance_0 as int,
        ).contains(name@),
        match r {
            Ok(a) => graph_view(*final(g)) == with_alias(
                graph_view(*old(g)),
                node_number(n),
                name@,
            ) && node_number(a) < graph_nodes(*final(g)).len()
                && graph_nodes(*final(g))[node_number(a) as int] == GraphNode::Alias(
                node_number(n),
                name@,
            ),
            Err(e) => *final(g) == *old(g) && e@ == "instance does not have an export named `"@
                + name@ + "`"@,
        },
{
    g.alias_instance_export(n, name).map_err(|e| e.to_string())
}

/// Why an argument is refused, if it is.
pub open spec fn argument_fault(
    g: GraphView,
    instance: nat,
    import: Seq<char>,
    argument: nat,
) -> Option<Seq<char>> {
    match argument_for(g, instance, import) {
        Some(a) => if a == argument {
            None
        } else {
            Some(
                "argument `"@ + import + "` has already been passed to the instantiation"@,
            )
        },
        None => wac_mismatch(g.packages, g.nodes, instance, import, argument),
    }
}

/// What an argument that is not refused does.
pub open spec fn with_argument(
    g: GraphView,
    instance: nat,
    import: Seq<char>,
    argument: nat,
) -> GraphView {
    if argument_for(g, instance, import) is Some {
        g
    } else {
        GraphView { arguments: g.arguments.push((instance, import, argument)), ..g }
    }
}

/// `CompositionGraph::set_instantiation_argument` feeds an import of an
/// instance from a node. An import is fed once; feeding it again from the
/// same node changes nothing. Of the subtype check only that its outcome
/// depends on the packages and nodes is claimed. Only exports of instances are
/// fed, so that the order of a graph's nodes and that of its arguments are all
/// the order there is.
#[verifier::external_body]
fn set_argument(g: &mut CompositionGraph, instance: NodeId, import: &str, argument: NodeId) -> (r:
    Result<(), String>)
    requires
        is_instance(graph_view(*old(g)), node_number(instance) as int),
        node_number(argument) < graph_nodes(*old(g)).len(),
        graph_nodes(*old(g))[node_number(argument) as int] is Alias,
        imports_of(
            graph_view(*old(g)),
            graph_nodes(*old(g))[node_number(instance) as int]->Instance_0 as int,
        ).contains(import@),
    ensures
        match r {
            Ok(_) => graph_view(*final(g)) == with_argument(
                graph_view(*old(g)),
                node_number(instance),
                import@,
                node_number(argument),
            ),
            Err(_) => true,
        },
        match argument_for(graph_view(*old(g)), node_number(instance), import@) {
            Some(a) => match r {
                Ok(_) => a == node_number(argument),
                Err(e) => a != node_number(argument) && e@ == "argument `"@ + import@
                    + "` has already been passed to the instantiation"@,
            },
            None => match r {
                Ok(_) => wac_mismatch(
                    graph_packages(*old(g)),
                    graph_nodes(*old(g)),
                    node_number(instance),
                    import@,
                    node_number(argument),
                ) is None,
                Err(e) => wac_mismatch(
                    graph_packages(*old(g)),
                    graph_nodes(*old(g)),
                    node_number(instance),
                    import@,
                    node_number(argument),
                ) == Some(e@),
            },
        },
{
    g.set_instantiation_argument(instance, import, argument).map_err(
        |e| format!("{:#}", anyhow::Error::from(e)),
    )
}

/// `CompositionGraph::export` exports a node of a graph that exports nothing
/// yet, unless the name is no export name.
#[verifier::external_body]
fn export_node(g: &mut CompositionGraph, n: NodeId, name: &str) -> (r: Result<(), String>)
    requires
        node_number(n) < graph_nodes(*old(g)).len(),
        graph_exports(*old(g)).len() == 0,
    ensures
        match r {
            Ok(_) => wac_export_name_fault(name@) is None && graph_view(*final(g)) == (GraphView {
                exports: seq![(name@, node_number(n))],
                ..graph_view(*old(g))
            }),
            Err(e) => wac_export_name_fault(name@) == Some(e@),
        },
{
    g.export(n, name).map_err(|e| format!("{:#}", anyhow::Error::from(e)))
}

/// The imports of an instance that something feeds.
pub open spec fn fed_names(g: GraphView, n: nat) -> Set<Seq<char>> {
    Set::new(|name: Seq<char>| argument_for(g, n, name) is Some)
}

/// `CompositionGraph::get_instantiation_arguments`: the imports of an instance
/// that something feeds, in no order that is claimed.
#[verifier::external_body]
fn fed_imports(g: &CompositionGraph, n: NodeId) -> (r: Vec<String>)
    requires
        is_instance(graph_view(*g), node_number(n) as int),
    ensures
        forall|name: Seq<char>| #[trigger]
            views(r@).contains(name) <==> argument_for(
                graph_view(*g),
                node_number(n),
                name,
            ) is Some,
{
    g.get_instantiation_arguments(n).map(|(name, _)| name.to_string()).collect()
}

/// Can the package of the `n`-th node, an instance, be part of the
/// composition?
pub open spec fn node_links(g: GraphView, n: int) -> bool {
    links(g.packages[g.nodes[n]->Instance_0 as int].1, fed_names(g, n as nat))
}

/// The components of the packages.
pub open spec fn components_of(packages: Seq<(Seq<char>, Seq<u8>)>) -> Seq<Seq<u8>> {
    packages.map_values(|x: (Seq<char>, Seq<u8>)| x.1)
}

/// Can every package that has an instance be part of the composition, and the
/// packages be in one?
pub open spec fn all_link(g: GraphView) -> bool {
    &&& untangled(components_of(g.packages))
    &&& forall|n: int| #[trigger] is_instance(g, n) ==> node_links(g, n)
}

/// `CompositionGraph::encode` with the default options: the composed
/// component, which depends on the graph alone. Every import that stays one of
/// the composition is such that the encoder does not give up on it, and the
/// interfaces do not take from one another in a circle.
#[verifier::external_body]
fn encode_graph(g: &CompositionGraph) -> (r: Result<Vec<u8>, String>)
    requires
        all_link(graph_view(*g)),
    ensures
        match r {
            Ok(bytes) => wac_encoded(
                graph_packages(*g),
                graph_nodes(*g),
                graph_arguments(*g),
                graph_exports(*g),
            ) == Ok::<Seq<u8>, Seq<char>>(bytes@),
            Err(e) => wac_encoded(
                graph_packages(*g),
                graph_nodes(*g),
                graph_arguments(*g),
                graph_exports(*g),
            ) == Err::<Seq<u8>, Seq<char>>(e@),
        },
{
    g.encode(EncodeOptions::default()).map_err(|e| format!("{:#}", anyhow::Error::from(e)))
}

// ---------------------------------------------------------------------
// What an input is
// ---------------------------------------------------------------------

/// What a composition input turned out to be, by its exports.
#[derive(Debug, Clone, Copy, PartialEq, Eq, Structural)]
pub enum Input {
    /// Exports `tests` only: needs a provider and the runner core.
    Suite,
    /// Exports `tests`, `test-context` and `factory`: needs only the runner
    /// core.
    Bundle,
    /// Exports `wasi:cli/run`: already composed.
    Composed,
}

/// The first of the names from the `i`-th on that is an entry point, or
/// their number.
pub open spec fn first_run(names: Seq<Seq<char>>, i: int) -> int
    decreases names.len() - i,
{
    if i < 0 || i >= names.len() || starts_with(names[i], RUN_PREFIX@) {
        i
    } else {
        first_run(names, i + 1)
    }
}

/// What an input is, by the names of its exports.
pub open spec fn kind_of(exports: Seq<Seq<char>>) -> Input {
    if first_run(exports, 0) < exports.len() {
        Input::Composed
    } else if exports.contains(FACTORY@) && exports.contains(CONTEXT@) {
        Input::Bundle
    } else {
        Input::Suite
    }
}

fn find_run(names: &[String]) -> (r: usize)
    ensures
        r == first_run(views(names@), 0),
        r <= names@.len(),
{
    let ghost ns = views(names@);
    let mut i: usize = 0;
    while i < names.len()
        invariant
            i <= names@.len(),
            ns == views(names@),
            first_run(ns, 0) == first_run(ns, i as int),
        decreases names.len() - i,
    {
        assert(ns[i as int] == names@[i as int]@);
        if has_prefix(names[i].as_str(), RUN_PREFIX) {
            return i;
        }
        i += 1;
    }
    i
}

/// What an input is, by the names of its exports.
pub fn classify_exports(exports: &[String]) -> (r: Input)
    ensures
        r == kind_of(views(exports@)),
{
    if find_run(exports) < exports.len() {
        Input::Composed
    } else if among(exports, FACTORY) && among(exports, CONTEXT) {
        Input::Bundle
    } else {
        Input::Suite
    }
}

/// Does the binary start with the magic bytes of WebAssembly?
pub open spec fn has_magic(wasm: Seq<u8>) -> bool {
    wasm.len() >= 4 && wasm[0] == 0 && wasm[1] == 0x61 && wasm[2] == 0x73 && wasm[3] == 0x6d
}

/// Refuse what is no WebAssembly binary, by the path that it was read from.
pub fn check_magic(path: &str, wasm: &[u8]) -> (r: Result<(), String>)
    ensures
        match r {
            Ok(_) => has_magic(wasm@),
            Err(e) => !has_magic(wasm@) && e@ == path@
                + " is not a WebAssembly binary (bad magic)"@,
        },
{
    if wasm.len() >= 4 && wasm[0] == 0 && wasm[1] == 0x61 && wasm[2] == 0x73 && wasm[3] == 0x6d {
        Ok(())
    } else {
        let mut e = owned(path);
        e.append(" is not a WebAssembly binary (bad magic)");
        Err(e)
    }
}

fn caused_text(what: &str, why: &str) -> (r: String)
    ensures
        r@ == caused(what@, why@),
{
    let mut r = owned(what);
    r.append(": ");
    r.append(why);
    r
}

/// Why a component that cannot be described is refused.
pub open spec fn odd_text() -> Seq<char> {
    "its interface is not one that can be composed"@
}

/// Why a composition is refused whose imports cannot be written out.
pub open spec fn knot_text() -> Seq<char> {
    "an import that stays open is not one that can be composed"@
}

/// The imports and exports of a component, or why it is refused.
pub open spec fn world_of(name: Seq<char>, bytes: Seq<u8>) -> Result<
    (Seq<Seq<char>>, Seq<Seq<char>>),
    Seq<char>,
> {
    if readable(bytes) { wac_world(name, bytes) } else { Err(odd_text()) }
}

/// Why a component cannot join a graph, if it cannot.
pub open spec fn register_fault(g: GraphView, name: Seq<char>, bytes: Seq<u8>) -> Option<
    Seq<char>,
> {
    match world_of(name, bytes) {
        Err(e) => Some(caused("parsing the "@ + name + " component"@, e)),
        Ok(_) => if has_package(g, name) {
            Some(
                caused(
                    "registering the "@ + name + " component"@,
                    "package `"@ + name + "` has already been registered in the graph"@,
                ),
            )
        } else {
            None
        },
    }
}

fn register(g: &mut CompositionGraph, name: &str, bytes: &[u8]) -> (r: Result<PackageId, String>)
    ensures
        match r {
            Ok(id) => register_fault(graph_view(*old(g)), name@, bytes@) is None && package_number(
                id,
            ) == graph_packages(*old(g)).len() && graph_view(*final(g)) == (GraphView {
                packages: graph_packages(*old(g)).push((name@, bytes@)),
                ..graph_view(*old(g))
            }),
            Err(e) => register_fault(graph_view(*old(g)), name@, bytes@) == Some(e@),
        },
{
    if !check_readable(bytes) {
        let mut what = owned("parsing the ");
        what.append(name);
        what.append(" component");
        return Err(
            caused_text(
                what.as_str(),
                "its interface is not one that can be composed",
            ),
        );
    }
    match add_package(g, name, bytes) {
        Err(why) => {
            let mut what = owned("parsing the ");
            what.append(name);
            what.append(" component");
            Err(caused_text(what.as_str(), why.as_str()))
        },
        Ok(Err(why)) => {
            let mut what = owned("registering the ");
            what.append(name);
            what.append(" component");
            Err(caused_text(what.as_str(), why.as_str()))
        },
        Ok(Ok(id)) => Ok(id),
    }
}

/// A graph with nothing in it.
pub open spec fn no_graph() -> GraphView {
    GraphView {
        packages: Seq::empty(),
        nodes: Seq::empty(),
        arguments: Seq::empty(),
        exports: Seq::empty(),
    }
}

/// What an input is, by its exports, or why it is no component.
pub fn classify(input: &[u8]) -> (r: Result<Input, String>)
    ensures
        match world_of("input"@, input@) {
            Ok(w) => r == Ok::<Input, String>(kind_of(w.1)),
            Err(e) => r is Err && r->Err_0@ == caused("parsing the input component"@, e),
        },
{
    let mut g = new_graph();
    proof {
        reveal_strlit("parsing the ");
        reveal_strlit("input");
        reveal_strlit(" component");
        reveal_strlit("parsing the input component");
        assert("parsing the "@ + "input"@ + " component"@ =~= "parsing the input component"@);
    }
    match register(&mut g, "input", input) {
        Ok(id) => {
            let exports = package_exports(&g, id);
            Ok(classify_exports(&exports))
        },
        Err(e) => Err(e),
    }
}

// ---------------------------------------------------------------------
// Wiring
// ---------------------------------------------------------------------

/// The number of the node that stands for an export of an instance, in a
/// graph that has one.
pub open spec fn alias_number(g: GraphView, n: nat, name: Seq<char>) -> nat {
    g.nodes.index_of(GraphNode::Alias(n, name)) as nat
}

/// What wiring one export of `from` does, where `to` imports it by that
/// name.
pub open spec fn wire_one(
    g: GraphView,
    from: nat,
    from_name: Seq<char>,
    to: nat,
    to_name: Seq<char>,
    name: Seq<char>,
) -> Result<GraphView, Seq<char>> {
    let p = g.nodes[to as int]->Instance_0;
    if !imports_of(g, p as int).contains(name) {
        Ok(g)
    } else {
        let aliased = with_alias(g, from, name);
        let a = alias_number(aliased, from, name);
        match argument_fault(aliased, to, name, a) {
            Some(e) => Err(
                caused(
                    "plugging the "@ + to_name + "'s `"@ + name + "` import from the "@ + from_name,
                    e,
                ),
            ),
            None => Ok(with_argument(aliased, to, name, a)),
        }
    }
}

/// What wiring the first `n` of the names does.
pub open spec fn wire_names(
    g: GraphView,
    from: nat,
    from_name: Seq<char>,
    to: nat,
    to_name: Seq<char>,
    names: Seq<Seq<char>>,
    n: int,
) -> Result<GraphView, Seq<char>>
    decreases n,
{
    if n <= 0 {
        Ok(g)
    } else {
        match wire_names(g, from, from_name, to, to_name, names, n - 1) {
            Err(e) => Err(e),
            Ok(h) => wire_one(h, from, from_name, to, to_name, names[n - 1]),
        }
    }
}

/// What wiring every export of `from` that `to` imports does. Imports that
/// nothing feeds stay imports of the composition.
pub open spec fn wired(
    g: GraphView,
    from: nat,
    from_name: Seq<char>,
    to: nat,
    to_name: Seq<char>,
) -> Result<GraphView, Seq<char>> {
    let names = exports_of(g, g.nodes[from as int]->Instance_0 as int);
    wire_names(g, from, from_name, to, to_name, names, names.len() as int)
}

/// Is `h` the graph `g` with more nodes and arguments, each alias once?
pub open spec fn extends(g: GraphView, h: GraphView) -> bool {
    &&& h.packages == g.packages
    &&& h.exports == g.exports
    &&& g.nodes.len() <= h.nodes.len()
    &&& forall|i: int| 0 <= i < g.nodes.len() ==> #[trigger] h.nodes[i] == g.nodes[i]
    &&& forall|i: int| g.nodes.len() <= i < h.nodes.len() ==> (#[trigger] h.nodes[i]) is Alias
}

/// Does every alias occur once?
pub open spec fn aliases_once(g: GraphView) -> bool {
    forall|i: int, j: int|
        0 <= i < g.nodes.len() && 0 <= j < g.nodes.len() && g.nodes[i] is Alias && #[trigger] g.nodes[i]
            == #[trigger] g.nodes[j] ==> i == j
}

proof fn lemma_alias_number(g: GraphView, n: nat, name: Seq<char>, a: nat)
    requires
        aliases_once(g),
        a < g.nodes.len(),
        g.nodes[a as int] == GraphNode::Alias(n, name),
    ensures
        alias_number(g, n, name) == a,
{
    assert(g.nodes.contains(GraphNode::Alias(n, name)));
    let i = g.nodes.index_of(GraphNode::Alias(n, name));
    assert(0 <= i < g.nodes.len() && g.nodes[i] == GraphNode::Alias(n, name));
    assert(g.nodes[i] == g.nodes[a as int]);
}

fn plug_text(to_name: &str, name: &str, from_name: &str, why: &str) -> (r: String)
    ensures
        r@ == caused(
            "plugging the "@ + to_name@ + "'s `"@ + name@ + "` import from the "@ + from_name@,
            why@,
        ),
{
    let mut what = owned("plugging the ");
    what.append(to_name);
    what.append("'s `");
    what.append(name);
    what.append("` import from the ");
    what.append(from_name);
    caused_text(what.as_str(), why)
}

fn wire(
    g: &mut CompositionGraph,
    from: NodeId,
    from_package: PackageId,
    from_name: &str,
    to: NodeId,
    to_package: PackageId,
    to_name: &str,
) -> (r: Result<(), String>)
    requires
        is_instance(graph_view(*old(g)), node_number(from) as int),
        graph_nodes(*old(g))[node_number(from) as int] == GraphNode::Instance(
            package_number(from_package),
        ),
        is_instance(graph_view(*old(g)), node_number(to) as int),
        graph_nodes(*old(g))[node_number(to) as int] == GraphNode::Instance(
            package_number(to_package),
        ),
        aliases_once(graph_view(*old(g))),
    ensures
        match r {
            Ok(_) => wired(
                graph_view(*old(g)),
                node_number(from),
                from_name@,
                node_number(to),
                to_name@,
            ) == Ok::<GraphView, Seq<char>>(graph_view(*final(g))) && extends(
                graph_view(*old(g)),
                graph_view(*final(g)),
            ) && aliases_once(graph_view(*final(g))),
            Err(e) => wired(
                graph_view(*old(g)),
                node_number(from),
                from_name@,
                node_number(to),
                to_name@,
            ) == Err::<GraphView, Seq<char>>(e@),
        },
{
    let ghost start = graph_view(*g);
    let ghost f = node_number(from);
    let ghost t = node_number(to);
    let exports = package_exports(g, from_package);
    let imports = package_imports(g, to_package);
    let ghost names = views(exports@);
    let mut i: usize = 0;
    while i < exports.len()
        invariant
            i <= exports@.len(),
            f == node_number(from),
            t == node_number(to),
            start == graph_view(*old(g)),
            names == views(exports@),
            names == exports_of(start, package_number(from_package) as int),
            views(imports@) == imports_of(start, package_number(to_package) as int),
            is_instance(start, f as int),
            start.nodes[f as int] == GraphNode::Instance(package_number(from_package)),
            is_instance(start, t as int),
            start.nodes[t as int] == GraphNode::Instance(package_number(to_package)),
            extends(start, graph_view(*g)),
            aliases_once(graph_view(*g)),
            wire_names(start, f, from_name@, t, to_name@, names, i as int) == Ok::<
                GraphView,
                Seq<char>,
            >(graph_view(*g)),
        decreases exports.len() - i,
    {
        let name = exports[i].as_str();
        assert(names[i as int] == name@);
        if among(&imports, name) {
            let ghost before = graph_view(*g);
            assert(before.nodes[f as int] == start.nodes[f as int]);
            assert(before.nodes[t as int] == start.nodes[t as int]);
            proof {
                assert(names.contains(name@));
            }
            match alias_export(g, from, name) {
                Err(_) => {
                    assert(false);
                },
                Ok(alias) => {
                    let ghost aliased = graph_view(*g);
                    proof {
                        assert(aliased == with_alias(before, f, name@));
                        assert(aliases_once(aliased)) by {
                            if !before.nodes.contains(GraphNode::Alias(f, name@)) {
                                assert forall|x: int, y: int|
                                    0 <= x < aliased.nodes.len() && 0 <= y < aliased.nodes.len()
                                        && aliased.nodes[x] is Alias && #[trigger] aliased.nodes[x]
                                        == #[trigger] aliased.nodes[y] implies x == y by {
                                    if x < before.nodes.len() && y < before.nodes.len() {
                                        assert(before.nodes[x] == before.nodes[y]);
                                    }
                                }
                            }
                        }
                        lemma_alias_number(aliased, f, name@, node_number(alias));
                        assert(aliased.nodes[t as int] == start.nodes[t as int]);
                    }
                    match set_argument(g, to, name, alias) {
                        Ok(_) => {},
                        Err(why) => {
                            proof {
                                lemma_wire_stops(
                                    start,
                                    f,
                                    from_name@,
                                    t,
                                    to_name@,
                                    names,
                                    i + 1,
                                    names.len() as int,
                                );
                            }
                            return Err(plug_text(to_name, name, from_name, why.as_str()));
                        },
                    }
                },
            }
        }
        i += 1;
    }
    Ok(())
}

proof fn lemma_wire_stops(
    g: GraphView,
    from: nat,
    from_name: Seq<char>,
    to: nat,
    to_name: Seq<char>,
    names: Seq<Seq<char>>,
    i: int,
    n: int,
)
    requires
        0 <= i <= n,
    ensures
        wire_names(g, from, from_name, to, to_name, names, i) is Err ==> wire_names(
            g,
            from,
            from_name,
            to,
            to_name,
            names,
            n,
        ) == wire_names(g, from, from_name, to, to_name, names, i),
    decreases n,
{
    if i < n {
        lemma_wire_stops(g, from, from_name, to, to_name, names, i, n - 1);
    }
}

// ---------------------------------------------------------------------
// Composing
// ---------------------------------------------------------------------

/// Why an input is refused, by the names of its exports, if it is.
pub open spec fn input_fault(exports: Seq<Seq<char>>) -> Option<Seq<char>> {
    let kind = kind_of(exports);
    if kind == Input::Composed {
        Some(
            "input already exports wasi:cli/run — it is already composed (`component-test run` executes it directly)"@,
        )
    } else if !exports.contains(TESTS@) {
        Some(
            "input does not export `polymorph:test/tests@0.1.0`: not a test suite (or bundle of one)"@,
        )
    } else if kind == Input::Suite && (exports.contains(CONTEXT@) || exports.contains(FACTORY@)) {
        Some(
            "input exports one of `polymorph:test/test-context@0.1.0`/`polymorph:test-provider/factory@0.1.0` but not both: a bundle must re-export both (see examples/compose/bundle.wac)"@,
        )
    } else {
        None
    }
}

/// Refuse an input that is composed already, is no suite, or is a bundle in
/// part: a partial bundle would wire ambiguously.
pub fn check_input(exports: &[String]) -> (r: Result<Input, String>)
    ensures
        match r {
            Ok(kind) => input_fault(views(exports@)) is None && kind == kind_of(views(exports@)),
            Err(e) => input_fault(views(exports@)) == Some(e@),
        },
{
    let kind = classify_exports(exports);
    match kind {
        Input::Composed => {
            return Err(
                owned(
                    "input already exports wasi:cli/run — it is already composed (`component-test run` executes it directly)",
                ),
            );
        },
        _ => {},
    }
    if !among(exports, TESTS) {
        return Err(
            owned(
                "input does not export `polymorph:test/tests@0.1.0`: not a test suite (or bundle of one)",
            ),
        );
    }
    match kind {
        Input::Suite => {
            if among(exports, CONTEXT) || among(exports, FACTORY) {
                return Err(
                    owned(
                        "input exports one of `polymorph:test/test-context@0.1.0`/`polymorph:test-provider/factory@0.1.0` but not both: a bundle must re-export both (see examples/compose/bundle.wac)",
                    ),
                );
            }
        },
        _ => {},
    }
    Ok(kind)
}

/// The graph with one more package.
pub open spec fn with_package(g: GraphView, name: Seq<char>, bytes: Seq<u8>) -> GraphView {
    GraphView { packages: g.packages.push((name, bytes)), ..g }
}

/// The graph with one more instance.
pub open spec fn with_instance(g: GraphView, package: nat) -> GraphView {
    GraphView { nodes: g.nodes.push(GraphNode::Instance(package)), ..g }
}

/// The graph of a bundle and the runner core: everything that the runner
/// core imports comes from the one bundle instance.
pub open spec fn bundle_graph(g: GraphView) -> Result<GraphView, Seq<char>> {
    wired(with_instance(with_instance(g, 1), 0), 1, "bundle"@, 0, "runner core"@)
}

/// The graph of a suite, the provider and the runner core: one provider
/// instance feeds the suite and the runner core.
pub open spec fn suite_graph(g: GraphView, provider: Seq<u8>) -> Result<GraphView, Seq<char>> {
    let runner = with_instance(g, 1);
    match register_fault(runner, "provider"@, provider) {
        Some(e) => Err(e),
        None => {
            let all = with_instance(
                with_instance(with_package(runner, "provider"@, provider), 2),
                0,
            );
            match wired(all, 1, "provider"@, 2, "suite"@) {
                Err(e) => Err(e),
                Ok(a) => match wired(a, 1, "provider"@, 0, "runner core"@) {
                    Err(e) => Err(e),
                    Ok(b) => wired(b, 2, "suite"@, 0, "runner core"@),
                },
            }
        },
    }
}

/// The graph with the runner core's entry point exported, encoded.
pub open spec fn finished(g: GraphView) -> Result<Seq<u8>, Seq<char>> {
    let exports = exports_of(g, 1);
    let run = first_run(exports, 0);
    if run >= exports.len() {
        Err("runner core exports no `wasi:cli/run@...` — not a runner core"@)
    } else {
        let aliased = with_alias(g, 0, exports[run]);
        match wac_export_name_fault(exports[run]) {
            Some(e) => Err(caused("exporting wasi:cli/run"@, e)),
            None => {
                let whole = GraphView {
                    exports: seq![(exports[run], alias_number(aliased, 0, exports[run]))],
                    ..aliased
                };
                if !all_link(whole) {
                    Err(caused("encoding the composition"@, knot_text()))
                } else {
                    match wac_encoded(
                        whole.packages,
                        whole.nodes,
                        whole.arguments,
                        whole.exports,
                    ) {
                        Err(e) => Err(caused("encoding the composition"@, e)),
                        Ok(bytes) => Ok(bytes),
                    }
                }
            },
        }
    }
}

/// The graph of the input and the runner core, with no instance yet, or why
/// there is none.
pub open spec fn base_graph(input: Seq<u8>, runner: Seq<u8>) -> Result<GraphView, Seq<char>> {
    match register_fault(no_graph(), "input"@, input) {
        Some(e) => Err(e),
        None => {
            let g = with_package(no_graph(), "input"@, input);
            match register_fault(g, "runner-cli"@, runner) {
                Some(e) => Err(e),
                None => match input_fault(exports_of(g, 0)) {
                    Some(e) => Err(e),
                    None => Ok(with_package(g, "runner-cli"@, runner)),
                },
            }
        },
    }
}

/// The composition of an input with the provider and the runner core.
pub open spec fn composed(input: Seq<u8>, provider: Seq<u8>, runner: Seq<u8>) -> Result<
    Seq<u8>,
    Seq<char>,
> {
    match base_graph(input, runner) {
        Err(e) => Err(e),
        Ok(g) => {
            let whole = if kind_of(exports_of(g, 0)) == Input::Bundle {
                bundle_graph(g)
            } else {
                suite_graph(g, provider)
            };
            match whole {
                Err(e) => Err(e),
                Ok(h) => finished(h),
            }
        },
    }
}

/// An instance of a graph, and the component that it is of.
struct Part<'a> {
    node: NodeId,
    bytes: &'a [u8],
}

/// Are these instances of the graph, each of its component?
spec fn parts_of(g: GraphView, parts: Seq<Part>) -> bool {
    forall|k: int|
        0 <= k < parts.len() ==> is_instance(g, node_number((#[trigger] parts[k]).node) as int)
            && g.packages[g.nodes[node_number(parts[k].node) as int]->Instance_0 as int].1
            == parts[k].bytes@
}

/// Is every instance of the graph among these?
spec fn parts_all(g: GraphView, parts: Seq<Part>) -> bool {
    forall|n: int| #[trigger]
        is_instance(g, n) ==> exists|k: int|
            0 <= k < parts.len() && node_number((#[trigger] parts[k]).node) == n
}

/// Are these the components of the packages, each of them settled?
spec fn components_are(g: GraphView, all: Seq<&[u8]>) -> bool {
    &&& binaries(all) == components_of(g.packages)
    &&& forall|i: int| 0 <= i < all.len() ==> settled(#[trigger] binaries(all)[i])
}

/// Can every package that has an instance be part of the composition, and the
/// packages be in one?
fn check_parts(g: &CompositionGraph, parts: &[Part], all: &[&[u8]]) -> (r: bool)
    requires
        parts_of(graph_view(*g), parts@),
        parts_all(graph_view(*g), parts@),
        components_are(graph_view(*g), all@),
    ensures
        r == all_link(graph_view(*g)),
{
    let ghost v = graph_view(*g);
    if !check_untangled(all) {
        return false;
    }
    let mut i: usize = 0;
    while i < parts.len()
        invariant
            i <= parts@.len(),
            v == graph_view(*g),
            untangled(components_of(v.packages)),
            parts_of(v, parts@),
            forall|k: int|
                0 <= k < i ==> node_links(v, node_number((#[trigger] parts@[k]).node) as int),
        decreases parts.len() - i,
    {
        let node = parts[i].node;
        assert(is_instance(v, node_number(parts@[i as int].node) as int));
        let fed = fed_imports(g, node);
        assert(views(fed@).to_set() =~= fed_names(v, node_number(node)));
        if !check_links(parts[i].bytes, &fed) {
            assert(!node_links(v, node_number(node) as int));
            return false;
        }
        i += 1;
    }
    proof {
        assert forall|n: int| #[trigger] is_instance(v, n) implies node_links(v, n) by {
            let k = choose|k: int|
                0 <= k < parts@.len() && node_number((#[trigger] parts@[k]).node) == n;
            assert(node_links(v, node_number(parts@[k].node) as int));
        }
    }
    true
}

fn finish(
    g: CompositionGraph,
    runner: NodeId,
    runner_package: PackageId,
    parts: &[Part],
    all: &[&[u8]],
) -> (r: Result<Vec<u8>, String>)
    requires
        node_number(runner) == 0,
        package_number(runner_package) == 1,
        graph_packages(g).len() > 1,
        is_instance(graph_view(g), 0),
        graph_nodes(g)[0] == GraphNode::Instance(1),
        aliases_once(graph_view(g)),
        graph_exports(g).len() == 0,
        parts_of(graph_view(g), parts@),
        parts_all(graph_view(g), parts@),
        components_are(graph_view(g), all@),
    ensures
        match r {
            Ok(bytes) => finished(graph_view(g)) == Ok::<Seq<u8>, Seq<char>>(bytes@),
            Err(e) => finished(graph_view(g)) == Err::<Seq<u8>, Seq<char>>(e@),
        },
{
    let mut g = g;
    let ghost start = graph_view(g);
    let exports = package_exports(&g, runner_package);
    let run = find_run(&exports);
    if run >= exports.len() {
        return Err(owned("runner core exports no `wasi:cli/run@...` — not a runner core"));
    }
    let name = exports[run].as_str();
    assert(views(exports@)[run as int] == name@);
    assert(exports_of(start, 1).contains(name@));
    match alias_export(&mut g, runner, name) {
        Err(e) => {
            assert(false);
            Err(e)
        },
        Ok(alias) => {
            let ghost aliased = graph_view(g);
            proof {
                assert(aliases_once(aliased)) by {
                    if !start.nodes.contains(GraphNode::Alias(0, name@)) {
                        assert forall|x: int, y: int|
                            0 <= x < aliased.nodes.len() && 0 <= y < aliased.nodes.len()
                                && aliased.nodes[x] is Alias && #[trigger] aliased.nodes[x]
                                == #[trigger] aliased.nodes[y] implies x == y by {
                            if x < start.nodes.len() && y < start.nodes.len() {
                                assert(start.nodes[x] == start.nodes[y]);
                            }
                        }
                    }
                }
                lemma_alias_number(aliased, 0, name@, node_number(alias));
            }
            match export_node(&mut g, alias, name) {
                Err(why) => Err(caused_text("exporting wasi:cli/run", why.as_str())),
                Ok(_) => {
                    let ghost whole = graph_view(g);
                    proof {
                        assert forall|k: int| 0 <= k < parts@.len() implies is_instance(
                            whole,
                            node_number((#[trigger] parts@[k]).node) as int,
                        ) && whole.packages[whole.nodes[node_number(
                            parts@[k].node,
                        ) as int]->Instance_0 as int].1 == parts@[k].bytes@ by {
                            assert(is_instance(start, node_number(parts@[k].node) as int));
                        }
                        assert forall|n: int| #[trigger] is_instance(whole, n) implies exists|
                            k: int,
                        |
                            0 <= k < parts@.len() && node_number((#[trigger] parts@[k]).node)
                                == n by {
                            assert(is_instance(start, n));
                        }
                    }
                    if !check_parts(&g, parts, all) {
                        return Err(
                            caused_text(
                                "encoding the composition",
                                "an import that stays open is not one that can be composed",
                            ),
                        );
                    }
                    match encode_graph(&g) {
                        Ok(bytes) => Ok(bytes),
                        Err(why) => Err(caused_text("encoding the composition", why.as_str())),
                    }
                },
            }
        },
    }
}

proof fn lemma_two_parts(g: GraphView, parts: Seq<Part>)
    requires
        parts.len() == 2,
        node_number(parts[0].node) == 0,
        node_number(parts[1].node) == 1,
        forall|n: int| 2 <= n < g.nodes.len() ==> (#[trigger] g.nodes[n]) is Alias,
    ensures
        parts_all(g, parts),
{
    assert forall|n: int| #[trigger] is_instance(g, n) implies exists|k: int|
        0 <= k < parts.len() && node_number((#[trigger] parts[k]).node) == n by {
        assert(node_number(parts[n].node) == n);
    }
}

proof fn lemma_three_parts(g: GraphView, parts: Seq<Part>)
    requires
        parts.len() == 3,
        node_number(parts[0].node) == 0,
        node_number(parts[1].node) == 1,
        node_number(parts[2].node) == 2,
        forall|n: int| 3 <= n < g.nodes.len() ==> (#[trigger] g.nodes[n]) is Alias,
    ensures
        parts_all(g, parts),
{
    assert forall|n: int| #[trigger] is_instance(g, n) implies exists|k: int|
        0 <= k < parts.len() && node_number((#[trigger] parts[k]).node) == n by {
        assert(node_number(parts[n].node) == n);
    }
}

/// Compose an input, a suite or a bundle, with the provider and the runner
/// core into a component that runs.
pub fn compose(input: &[u8], provider: &[u8], runner: &[u8]) -> (r: Result<Vec<u8>, String>)
    ensures
        match r {
            Ok(bytes) => composed(input@, provider@, runner@) == Ok::<Seq<u8>, Seq<char>>(bytes@),
            Err(e) => composed(input@, provider@, runner@) == Err::<Seq<u8>, Seq<char>>(e@),
        },
{
    let mut g = new_graph();
    let input_package = match register(&mut g, "input", input) {
        Ok(id) => id,
        Err(e) => return Err(e),
    };
    assert(graph_view(g) == with_package(no_graph(), "input"@, input@));
    let runner_package = match register(&mut g, "runner-cli", runner) {
        Ok(id) => id,
        Err(e) => return Err(e),
    };
    let exports = package_exports(&g, input_package);
    assert(views(exports@) == exports_of(with_package(no_graph(), "input"@, input@), 0));
    let kind = match check_input(&exports) {
        Ok(kind) => kind,
        Err(e) => return Err(e),
    };
    let ghost base = graph_view(g);
    assert(base_graph(input@, runner@) == Ok::<GraphView, Seq<char>>(base));
    assert(exports_of(base, 0) == views(exports@));
    let runner_instance = instantiate(&mut g, runner_package);
    let mut parts: Vec<Part> = Vec::new();
    parts.push(Part { node: runner_instance, bytes: runner });
    let mut all: Vec<&[u8]> = Vec::new();
    all.push(input);
    all.push(runner);
    match kind {
        Input::Bundle => {
            let bundle = instantiate(&mut g, input_package);
            parts.push(Part { node: bundle, bytes: input });
            assert(graph_view(g) == with_instance(with_instance(base, 1), 0));
            match wire(
                &mut g,
                bundle,
                input_package,
                "bundle",
                runner_instance,
                runner_package,
                "runner core",
            ) {
                Ok(_) => {},
                Err(e) => return Err(e),
            }
            proof {
                lemma_two_parts(graph_view(g), parts@);
                assert(binaries(all@) =~= components_of(graph_packages(g)));
            }
        },
        _ => {
            let provider_package = match register(&mut g, "provider", provider) {
                Ok(id) => id,
                Err(e) => return Err(e),
            };
            all.push(provider);
            let provider_instance = instantiate(&mut g, provider_package);
            let suite = instantiate(&mut g, input_package);
            parts.push(Part { node: provider_instance, bytes: provider });
            parts.push(Part { node: suite, bytes: input });
            assert(graph_view(g) == with_instance(
                with_instance(with_package(with_instance(base, 1), "provider"@, provider@), 2),
                0,
            ));
            match wire(
                &mut g,
                provider_instance,
                provider_package,
                "provider",
                suite,
                input_package,
                "suite",
            ) {
                Ok(_) => {},
                Err(e) => return Err(e),
            }
            match wire(
                &mut g,
                provider_instance,
                provider_package,
                "provider",
                runner_instance,
                runner_package,
                "runner core",
            ) {
                Ok(_) => {},
                Err(e) => return Err(e),
            }
            match wire(
                &mut g,
                suite,
                input_package,
                "suite",
                runner_instance,
                runner_package,
                "runner core",
            ) {
                Ok(_) => {},
                Err(e) => return Err(e),
            }
            proof {
                lemma_three_parts(graph_view(g), parts@);
                assert(binaries(all@) =~= components_of(graph_packages(g)));
            }
        },
    }
    finish(g, runner_instance, runner_package, &parts, &all)
}

// ---------------------------------------------------------------------
// Laws
// ---------------------------------------------------------------------

/// What is composed already is never composed again.
pub proof fn law_composed_is_refused(input: Seq<u8>, provider: Seq<u8>, runner: Seq<u8>)
    requires
        world_of("input"@, input) is Ok,
        kind_of(world_of("input"@, input)->Ok_0.1) == Input::Composed,
    ensures
        composed(input, provider, runner) is Err,
{
    let g = with_package(no_graph(), "input"@, input);
    assert(g.packages[0] == ("input"@, input));
}

/// A bundle composes the same whatever the provider is.
pub proof fn law_bundle_needs_no_provider(
    input: Seq<u8>,
    provider: Seq<u8>,
    other: Seq<u8>,
    runner: Seq<u8>,
)
    requires
        world_of("input"@, input) is Ok,
        kind_of(world_of("input"@, input)->Ok_0.1) == Input::Bundle,
    ensures
        composed(input, provider, runner) == composed(input, other, runner),
{
    let g = with_package(no_graph(), "input"@, input);
    assert(g.packages[0] == ("input"@, input));
    let h = with_package(g, "runner-cli"@, runner);
    assert(h.packages[0] == ("input"@, input));
}

proof fn lemma_first_run(names: Seq<Seq<char>>, i: int)
    requires
        0 <= i <= names.len(),
    ensures
        i <= first_run(names, i) <= names.len(),
        first_run(names, i) < names.len() ==> starts_with(
            names[first_run(names, i)],
            "wasi:cli/run@"@,
        ),
        forall|k: int|
            i <= k < first_run(names, i) ==> !starts_with(#[trigger] names[k], "wasi:cli/run@"@),
    decreases names.len() - i,
{
    if i < names.len() && !starts_with(names[i], RUN_PREFIX@) {
        lemma_first_run(names, i + 1);
    }
}

/// Does a component export a command to run?
pub open spec fn runs(exports: Seq<Seq<char>>) -> bool {
    exists|i: int| 0 <= i < exports.len() && starts_with(#[trigger] exports[i], "wasi:cli/run@"@)
}

/// A component that can be run is composed already. One that brings factory
/// and context of its own is a bundle, and any other a suite.
pub proof fn law_kind_of(exports: Seq<Seq<char>>)
    ensures
        kind_of(exports) == Input::Composed <==> runs(exports),
        kind_of(exports) == Input::Bundle <==> !runs(exports) && exports.contains(
            "polymorph:test-provider/factory@0.1.0"@,
        ) && exports.contains("polymorph:test/test-context@0.1.0"@),
{
    lemma_first_run(exports, 0);
    let at = first_run(exports, 0);
    if at < exports.len() {
        assert(starts_with(exports[at], "wasi:cli/run@"@));
    }
}

/// A component is taken exactly where it cannot be run yet, exports tests, and
/// brings both factory and context or neither.
pub proof fn law_input_fault(exports: Seq<Seq<char>>)
    ensures
        input_fault(exports) is None <==> {
            &&& !runs(exports)
            &&& exports.contains("polymorph:test/tests@0.1.0"@)
            &&& exports.contains("polymorph:test-provider/factory@0.1.0"@) <==> exports.contains(
                "polymorph:test/test-context@0.1.0"@,
            )
        },
{
    law_kind_of(exports);
}

/// Is the import of the instance fed from the export of that name of `from`?
pub open spec fn plugs(g: GraphView, to: nat, name: Seq<char>, from: nat) -> bool {
    exists|i: int|
        0 <= i < g.arguments.len() && is_plug(g, #[trigger] g.arguments[i], to, name, from)
}

/// Is this the argument that does it?
pub open spec fn is_plug(
    g: GraphView,
    x: (nat, Seq<char>, nat),
    to: nat,
    name: Seq<char>,
    from: nat,
) -> bool {
    x.0 == to && x.1 == name && x.2 < g.nodes.len() && g.nodes[x.2 as int] == GraphNode::Alias(
        from,
        name,
    )
}

/// Do the arguments name nodes that there are?
pub open spec fn arguments_exist(g: GraphView) -> bool {
    forall|i: int| 0 <= i < g.arguments.len() ==> (#[trigger] g.arguments[i]).2 < g.nodes.len()
}

/// Does `h` have the plugs of `g`, and those that `from` and `to` share?
pub open spec fn plugged(g: GraphView, h: GraphView, from: nat, to: nat, names: Seq<Seq<char>>) -> bool {
    forall|t: nat, name: Seq<char>, f: nat| #[trigger]
        plugs(h, t, name, f) <==> plugs(g, t, name, f) || (t == to && f == from && names.contains(
            name,
        ) && imports_of(g, g.nodes[to as int]->Instance_0 as int).contains(name))
}

proof fn lemma_argument_for(g: GraphView, instance: nat, import: Seq<char>)
    ensures
        match argument_for(g, instance, import) {
            Some(a) => exists|i: int|
                0 <= i < g.arguments.len() && (#[trigger] g.arguments[i]) == (instance, import, a),
            None => true,
        },
{
}

proof fn lemma_wire_one(
    g: GraphView,
    from: nat,
    from_name: Seq<char>,
    to: nat,
    to_name: Seq<char>,
    name: Seq<char>,
    h: GraphView,
)
    requires
        to < g.nodes.len(),
        arguments_exist(g),
        wire_one(g, from, from_name, to, to_name, name) == Ok::<GraphView, Seq<char>>(h),
    ensures
        extends(g, h),
        arguments_exist(h),
        plugged(g, h, from, to, seq![name]),
{
    let one = seq![name];
    assert(one[0] == name);
    assert forall|n: Seq<char>| #[trigger] one.contains(n) implies n == name by {}
    if imports_of(g, g.nodes[to as int]->Instance_0 as int).contains(name) {
        let mid = with_alias(g, from, name);
        let alias = GraphNode::Alias(from, name);
        if !g.nodes.contains(alias) {
            assert(mid.nodes[g.nodes.len() as int] == alias);
        }
        assert(mid.nodes.contains(alias));
        let a = alias_number(mid, from, name);
        assert(0 <= mid.nodes.index_of(alias) < mid.nodes.len() && mid.nodes[mid.nodes.index_of(
            alias,
        )] == alias);
        assert(mid.nodes[a as int] == alias);
        assert(h.nodes == mid.nodes);
        assert(plugs(h, to, name, from)) by {
            match argument_for(mid, to, name) {
                Some(b) => {
                    lemma_argument_for(mid, to, name);
                    let i = choose|i: int|
                        0 <= i < mid.arguments.len() && (#[trigger] mid.arguments[i]) == (
                            to,
                            name,
                            b,
                        );
                    assert(argument_fault(mid, to, name, a) is None);
                    assert(h == mid);
                    assert(is_plug(h, h.arguments[i], to, name, from));
                },
                None => {
                    let i = mid.arguments.len() as int;
                    assert(h.arguments[i] == (to, name, a));
                    assert(is_plug(h, h.arguments[i], to, name, from));
                },
            }
        }
        assert forall|t: nat, n: Seq<char>, f: nat| #[trigger]
            plugs(h, t, n, f) <==> plugs(g, t, n, f) || (t == to && f == from && one.contains(n)
                && imports_of(g, g.nodes[to as int]->Instance_0 as int).contains(n)) by {
            if plugs(h, t, n, f) {
                let i = choose|i: int|
                    0 <= i < h.arguments.len() && is_plug(h, #[trigger] h.arguments[i], t, n, f);
                if i < g.arguments.len() {
                    assert(h.arguments[i] == g.arguments[i]);
                    assert(is_plug(g, g.arguments[i], t, n, f));
                } else {
                    assert(h.arguments[i] == (to, name, a));
                }
            }
            if plugs(g, t, n, f) {
                let i = choose|i: int|
                    0 <= i < g.arguments.len() && is_plug(g, #[trigger] g.arguments[i], t, n, f);
                assert(h.arguments[i] == g.arguments[i]);
                assert(is_plug(h, h.arguments[i], t, n, f));
            }
        }
    }
}

proof fn lemma_wire_names(
    g: GraphView,
    from: nat,
    from_name: Seq<char>,
    to: nat,
    to_name: Seq<char>,
    names: Seq<Seq<char>>,
    n: int,
    h: GraphView,
)
    requires
        to < g.nodes.len(),
        arguments_exist(g),
        0 <= n <= names.len(),
        wire_names(g, from, from_name, to, to_name, names, n) == Ok::<GraphView, Seq<char>>(h),
    ensures
        extends(g, h),
        arguments_exist(h),
        plugged(g, h, from, to, names.take(n)),
    decreases n,
{
    let some = names.take(n);
    if n > 0 {
        let mid = wire_names(g, from, from_name, to, to_name, names, n - 1)->Ok_0;
        lemma_wire_names(g, from, from_name, to, to_name, names, n - 1, mid);
        lemma_wire_one(mid, from, from_name, to, to_name, names[n - 1], h);
        let fewer = names.take(n - 1);
        let one = seq![names[n - 1]];
        assert(some =~= fewer + one);
        assert(mid.nodes[to as int] == g.nodes[to as int]);
        assert forall|t: nat, x: Seq<char>, f: nat| #[trigger]
            plugs(h, t, x, f) <==> plugs(g, t, x, f) || (t == to && f == from && some.contains(x)
                && imports_of(g, g.nodes[to as int]->Instance_0 as int).contains(x)) by {
            crate::lockfile::lemma_contains_sum(fewer, one, x);
            assert(plugs(mid, t, x, f) <==> plugs(g, t, x, f) || (t == to && f == from
                && fewer.contains(x) && imports_of(g, g.nodes[to as int]->Instance_0 as int).contains(
                x,
            )));
        }
        assert forall|i: int| g.nodes.len() <= i < h.nodes.len() implies (
        #[trigger] h.nodes[i]) is Alias by {
            if i < mid.nodes.len() {
                assert(h.nodes[i] == mid.nodes[i]);
            }
        }
        assert forall|i: int| 0 <= i < g.nodes.len() implies #[trigger] h.nodes[i] == g.nodes[i] by {
            assert(h.nodes[i] == mid.nodes[i]);
        }
    }
}

/// Wiring one instance to another plugs every import of the second that the
/// first exports from that export, and changes nothing else.
pub proof fn law_wired(
    g: GraphView,
    from: nat,
    from_name: Seq<char>,
    to: nat,
    to_name: Seq<char>,
    h: GraphView,
)
    requires
        from < g.nodes.len(),
        to < g.nodes.len(),
        arguments_exist(g),
        wired(g, from, from_name, to, to_name) == Ok::<GraphView, Seq<char>>(h),
    ensures
        extends(g, h),
        arguments_exist(h),
        plugged(g, h, from, to, exports_of(g, g.nodes[from as int]->Instance_0 as int)),
{
    let names = exports_of(g, g.nodes[from as int]->Instance_0 as int);
    lemma_wire_names(g, from, from_name, to, to_name, names, names.len() as int, h);
    assert(names.take(names.len() as int) =~= names);
}

/// Does package `to` import what package `from` exports under that name?
pub open spec fn shared(g: GraphView, from: int, to: int, name: Seq<char>) -> bool {
    exports_of(g, from).contains(name) && imports_of(g, to).contains(name)
}

/// A composition of a bundle: runner and bundle, the runner plugged from the
/// bundle and nothing else plugged.
pub open spec fn is_bundle_graph(g: GraphView, input: Seq<u8>, runner: Seq<u8>) -> bool {
    &&& g.packages == seq![("input"@, input), ("runner-cli"@, runner)]
    &&& g.nodes.len() >= 2
    &&& g.nodes[0] == GraphNode::Instance(1)
    &&& g.nodes[1] == GraphNode::Instance(0)
    &&& forall|n: int| 2 <= n < g.nodes.len() ==> (#[trigger] g.nodes[n]) is Alias
    &&& forall|t: nat, name: Seq<char>, f: nat| #[trigger]
        plugs(g, t, name, f) <==> t == 0 && f == 1 && shared(g, 0, 1, name)
}

/// A composition of a suite: runner, provider and suite, the suite plugged
/// from the provider, the runner from both, and nothing else plugged.
pub open spec fn is_suite_graph(
    g: GraphView,
    input: Seq<u8>,
    provider: Seq<u8>,
    runner: Seq<u8>,
) -> bool {
    &&& g.packages == seq![("input"@, input), ("runner-cli"@, runner), ("provider"@, provider)]
    &&& g.nodes.len() >= 3
    &&& forall|n: int| 3 <= n < g.nodes.len() ==> (#[trigger] g.nodes[n]) is Alias
    &&& exists|r: nat, p: nat, s: nat| #[trigger] plugged_as(g, r, p, s)
}

/// Runner, provider and suite are these nodes, plugged as they should be.
pub open spec fn plugged_as(g: GraphView, r: nat, p: nat, s: nat) -> bool {
    &&& r < 3 && p < 3 && s < 3
    &&& g.nodes[r as int] == GraphNode::Instance(1)
    &&& g.nodes[p as int] == GraphNode::Instance(2)
    &&& g.nodes[s as int] == GraphNode::Instance(0)
    &&& forall|t: nat, name: Seq<char>, f: nat| #[trigger]
        plugs(g, t, name, f) <==> {
            ||| t == s && f == p && shared(g, 2, 0, name)
            ||| t == r && f == p && shared(g, 2, 1, name)
            ||| t == r && f == s && shared(g, 0, 1, name)
        }
}

/// The graph of a suite is runner, provider and suite, plugged as they share
/// names.
pub proof fn law_suite_graph(input: Seq<u8>, provider: Seq<u8>, runner: Seq<u8>, h: GraphView)
    requires
        base_graph(input, runner) is Ok,
        suite_graph(base_graph(input, runner)->Ok_0, provider) == Ok::<GraphView, Seq<char>>(h),
    ensures
        is_suite_graph(h, input, provider, runner),
{
    let g = base_graph(input, runner)->Ok_0;
    assert(g.packages =~= seq![("input"@, input), ("runner-cli"@, runner)]);
    let first = with_instance(g, 1);
    let all = with_instance(
        with_instance(with_package(first, "provider"@, provider), 2),
        0,
    );
    assert(all.packages =~= seq![
        ("input"@, input),
        ("runner-cli"@, runner),
        ("provider"@, provider),
    ]);
    assert(all.nodes =~= seq![
        GraphNode::Instance(1),
        GraphNode::Instance(2),
        GraphNode::Instance(0),
    ]);
    let a = wired(all, 1, "provider"@, 2, "suite"@)->Ok_0;
    law_wired(all, 1, "provider"@, 2, "suite"@, a);
    assert(a.nodes[0] == all.nodes[0] && a.nodes[1] == all.nodes[1] && a.nodes[2] == all.nodes[2]);
    let b = wired(a, 1, "provider"@, 0, "runner core"@)->Ok_0;
    law_wired(a, 1, "provider"@, 0, "runner core"@, b);
    assert(b.nodes[0] == a.nodes[0] && b.nodes[1] == a.nodes[1] && b.nodes[2] == a.nodes[2]);
    law_wired(b, 2, "suite"@, 0, "runner core"@, h);
    assert(h.nodes[0] == b.nodes[0] && h.nodes[1] == b.nodes[1] && h.nodes[2] == b.nodes[2]);
    assert forall|t: nat, name: Seq<char>, f: nat| #[trigger]
        plugs(h, t, name, f) <==> {
            ||| t == 2 && f == 1 && shared(h, 2, 0, name)
            ||| t == 0 && f == 1 && shared(h, 2, 1, name)
            ||| t == 0 && f == 2 && shared(h, 0, 1, name)
        } by {
        assert(!plugs(all, t, name, f));
        assert(plugs(a, t, name, f) <==> t == 2 && f == 1 && shared(h, 2, 0, name));
        assert(plugs(b, t, name, f) <==> plugs(a, t, name, f) || (t == 0 && f == 1 && shared(
            h,
            2,
            1,
            name,
        )));
    }
    assert(plugged_as(h, 0, 1, 2));
    assert forall|n: int| 3 <= n < h.nodes.len() implies (#[trigger] h.nodes[n]) is Alias by {
        if n < b.nodes.len() {
            assert(h.nodes[n] == b.nodes[n]);
            if n < a.nodes.len() {
                assert(b.nodes[n] == a.nodes[n]);
            }
        }
    }
}

/// The graph of a bundle is runner and bundle, plugged as they share names.
pub proof fn law_bundle_graph(input: Seq<u8>, runner: Seq<u8>, h: GraphView)
    requires
        base_graph(input, runner) is Ok,
        bundle_graph(base_graph(input, runner)->Ok_0) == Ok::<GraphView, Seq<char>>(h),
    ensures
        is_bundle_graph(h, input, runner),
{
    let g = base_graph(input, runner)->Ok_0;
    assert(g.packages =~= seq![("input"@, input), ("runner-cli"@, runner)]);
    let all = with_instance(with_instance(g, 1), 0);
    assert(all.nodes =~= seq![GraphNode::Instance(1), GraphNode::Instance(0)]);
    law_wired(all, 1, "bundle"@, 0, "runner core"@, h);
    assert(h.nodes[0] == all.nodes[0] && h.nodes[1] == all.nodes[1]);
    assert forall|t: nat, name: Seq<char>, f: nat| #[trigger]
        plugs(h, t, name, f) <==> t == 0 && f == 1 && shared(h, 0, 1, name) by {
        assert(!plugs(all, t, name, f));
    }
}

/// What is exported of a composition is the first command of the runner, and
/// nothing else; the graph is otherwise encoded as it was wired.
pub proof fn law_finished(g: GraphView, bytes: Seq<u8>)
    requires
        finished(g) == Ok::<Seq<u8>, Seq<char>>(bytes),
    ensures
        exists|h: GraphView, at: int| #[trigger]
            is_finished(g, h, at) && wac_encoded(h.packages, h.nodes, h.arguments, h.exports) == Ok::<
                Seq<u8>,
                Seq<char>,
            >(bytes),
{
    let exports = exports_of(g, 1);
    lemma_first_run(exports, 0);
    let at = first_run(exports, 0);
    let mid = with_alias(g, 0, exports[at]);
    let alias = GraphNode::Alias(0, exports[at]);
    if !g.nodes.contains(alias) {
        assert(mid.nodes[g.nodes.len() as int] == alias);
    }
    assert(mid.nodes.contains(alias));
    let i = mid.nodes.index_of(alias);
    assert(0 <= i < mid.nodes.len() && mid.nodes[i] == alias);
    let h = GraphView { exports: seq![(exports[at], alias_number(mid, 0, exports[at]))], ..mid };
    assert(h.nodes.take(g.nodes.len() as int) =~= g.nodes);
    assert(alias_number(mid, 0, exports[at]) == i);
    assert(is_finished(g, h, at));
}

/// Is `h` the graph `g` with the first command of the runner exported?
pub open spec fn is_finished(g: GraphView, h: GraphView, at: int) -> bool {
    let exports = exports_of(g, 1);
    &&& 0 <= at < exports.len()
    &&& starts_with(exports[at], "wasi:cli/run@"@)
    &&& forall|k: int| 0 <= k < at ==> !starts_with(#[trigger] exports[k], "wasi:cli/run@"@)
    &&& h.packages == g.packages
    &&& h.arguments == g.arguments
    &&& h.nodes.len() >= g.nodes.len()
    &&& h.nodes.take(g.nodes.len() as int) == g.nodes
    &&& h.exports.len() == 1
    &&& h.exports[0].0 == exports[at]
    &&& h.exports[0].1 < h.nodes.len()
    &&& h.nodes[h.exports[0].1 as int] == GraphNode::Alias(0, exports[at])
}

} // verus!
