//! What the interfaces of a composition take from one another.
//!
//! An interface takes a type from another where one of its types stands for
//! one of the other. In a single component the other comes first. The crate
//! that composes makes one interface of those that have a name in common, and
//! writes an interface out after those that it takes from, so that it comes to
//! no end where interfaces take from one another in a circle.

use vstd::prelude::*;
use wasmparser::component_types::{AnyTypeId, ComponentEntityType};
use wasmparser::types::Types;

use crate::linking::{made_in, push_made};
use crate::opening::settled;
use crate::shape::{
    entity, entity_run, entity_view, entity_views, extern_list, extern_names, extern_of,
    instance_items, kind, run_of, same, stands_for, traced, type_run, type_view, type_views, typed,
    types_of, types_run, wasm_extern, wasm_holds, wasm_instance, Entity, EntityView, Kind, TypeView,
    STEPS,
};
use crate::text::{owned, views};

verus! {

/// The type of the instance that a component imports by that name.
pub open spec fn instance_type(wasm: Seq<u8>, name: Seq<char>) -> Option<TypeView> {
    match wasm_extern(wasm, name, true) {
        Some(EntityView::Instance(t)) => Some(t),
        _ => None,
    }
}

/// Is an item one of the types, by another name?
pub open spec fn taken(wasm: Seq<u8>, e: EntityView, made: Seq<TypeView>) -> bool {
    match e {
        EntityView::Type(referenced, _) => stands_for(wasm, referenced, made, STEPS as nat),
        _ => false,
    }
}

/// Is one of the items one of the types, by another name?
pub open spec fn takes(wasm: Seq<u8>, items: Seq<EntityView>, made: Seq<TypeView>) -> bool {
    exists|i: int| 0 <= i < items.len() && taken(wasm, #[trigger] items[i], made)
}

/// Does the instance that a component imports by one name take a type from
/// that by the other?
pub open spec fn tied(wasm: Seq<u8>, from: Seq<char>, to: Seq<char>) -> bool {
    match (instance_type(wasm, from), instance_type(wasm, to)) {
        (Some(a), Some(b)) => a != b && takes(wasm, wasm_instance(wasm, a), made_in(wasm, b)),
        _ => false,
    }
}

/// What an import takes from those by the first `n` of the names.
pub open spec fn ties_of(
    wasm: Seq<u8>,
    names: Seq<Seq<char>>,
    from: Seq<char>,
    n: int,
) -> Seq<(Seq<char>, Seq<char>)>
    decreases n,
{
    if n <= 0 {
        Seq::empty()
    } else if tied(wasm, from, names[n - 1]) {
        ties_of(wasm, names, from, n - 1).push((from, names[n - 1]))
    } else {
        ties_of(wasm, names, from, n - 1)
    }
}

/// What the imports by the first `n` of the names take from one another.
pub open spec fn ties_in(wasm: Seq<u8>, names: Seq<Seq<char>>, n: int) -> Seq<
    (Seq<char>, Seq<char>),
>
    decreases n,
{
    if n <= 0 {
        Seq::empty()
    } else {
        ties_in(wasm, names, n - 1) + ties_of(wasm, names, names[n - 1], names.len() as int)
    }
}

/// What the imports of a component take from one another.
pub open spec fn ties(wasm: Seq<u8>) -> Seq<(Seq<char>, Seq<char>)> {
    if wasm_holds(wasm) {
        let names = extern_names(wasm, true);
        ties_in(wasm, names, names.len() as int)
    } else {
        Seq::empty()
    }
}

/// What the imports of the first `n` components take from one another.
pub open spec fn all_ties(parts: Seq<Seq<u8>>, n: int) -> Seq<(Seq<char>, Seq<char>)>
    decreases n,
{
    if n <= 0 {
        Seq::empty()
    } else {
        all_ties(parts, n - 1) + ties(parts[n - 1])
    }
}

/// Is each imported instance of a type of its own?
pub open spec fn types_apart(wasm: Seq<u8>) -> bool {
    let names = extern_names(wasm, true);
    wasm_holds(wasm) ==> forall|x: int, y: int|
        0 <= x < y < names.len() && instance_type(wasm, #[trigger] names[x]) is Some
            ==> instance_type(wasm, names[x]) != instance_type(wasm, #[trigger] names[y])
}

/// Does one of the ties start at that name?
pub open spec fn starts(ties: Seq<(Seq<char>, Seq<char>)>, name: Seq<char>) -> bool {
    exists|i: int| 0 <= i < ties.len() && (#[trigger] ties[i]).0 == name
}

/// Those of the first `n` ties that lead on.
pub open spec fn kept(ties: Seq<(Seq<char>, Seq<char>)>, n: int) -> Seq<(Seq<char>, Seq<char>)>
    decreases n,
{
    if n <= 0 {
        Seq::empty()
    } else if starts(ties, ties[n - 1].1) {
        kept(ties, n - 1).push(ties[n - 1])
    } else {
        kept(ties, n - 1)
    }
}

/// Is there nothing left when those that lead nowhere are left out, again and
/// again?
pub open spec fn drains(ties: Seq<(Seq<char>, Seq<char>)>) -> bool
    decreases ties.len(),
{
    let left = kept(ties, ties.len() as int);
    if ties.len() == 0 {
        true
    } else if left.len() >= ties.len() {
        false
    } else {
        drains(left)
    }
}

/// Is what a component imports by that name a resource that stands for
/// another?
pub open spec fn stands_in(wasm: Seq<u8>, name: Seq<char>) -> bool {
    match wasm_extern(wasm, name, true) {
        Some(EntityView::Type(referenced, created)) => created is Resource && referenced != created,
        _ => false,
    }
}

/// Does a component import a resource that stands for another?
pub open spec fn has_stand_in(wasm: Seq<u8>) -> bool {
    let names = extern_names(wasm, true);
    wasm_holds(wasm) && exists|i: int|
        0 <= i < names.len() && stands_in(wasm, #[trigger] names[i])
}

/// Do interfaces of the components not take from one another in a circle?
/// Where any takes from another, or a resource that is imported stands for
/// another, no two imports of a component are of one type, which would make
/// one interface of both.
pub open spec fn untangled(parts: Seq<Seq<u8>>) -> bool {
    let all = all_ties(parts, parts.len() as int);
    &&& drains(all)
    &&& (all.len() == 0 && forall|i: int|
        0 <= i < parts.len() ==> !has_stand_in(#[trigger] parts[i])) || forall|i: int|
        0 <= i < parts.len() ==> types_apart(#[trigger] parts[i])
}

/// The tie by which a closed path goes on from its `i`-th name.
pub open spec fn stride(path: Seq<Seq<char>>, i: int) -> (Seq<char>, Seq<char>) {
    (path[i], path[if i + 1 < path.len() { i + 1 } else { 0 }])
}

proof fn lemma_kept(ties: Seq<(Seq<char>, Seq<char>)>, n: int, tie: (Seq<char>, Seq<char>))
    requires
        n <= ties.len(),
        exists|i: int| 0 <= i < n && ties[i] == tie,
        starts(ties, tie.1),
    ensures
        kept(ties, n).contains(tie),
    decreases n,
{
    let i = choose|i: int| 0 <= i < n && ties[i] == tie;
    let rest = kept(ties, n - 1);
    if i == n - 1 {
        assert(rest.push(tie).last() == tie);
        assert(kept(ties, n)[kept(ties, n).len() - 1] == tie);
    } else {
        lemma_kept(ties, n - 1, tie);
        let k = choose|k: int| 0 <= k < rest.len() && rest[k] == tie;
        assert(kept(ties, n)[k] == tie);
    }
}

/// Ties that drain do not run in a circle: every closed path goes on somewhere
/// without one.
pub proof fn law_no_circle(ties: Seq<(Seq<char>, Seq<char>)>, path: Seq<Seq<char>>)
    requires
        drains(ties),
        path.len() > 0,
    ensures
        exists|i: int| 0 <= i < path.len() && !ties.contains(#[trigger] stride(path, i)),
    decreases ties.len(),
{
    if forall|i: int| 0 <= i < path.len() ==> ties.contains(#[trigger] stride(path, i)) {
        assert(ties.contains(stride(path, 0)));
        let left = kept(ties, ties.len() as int);
        assert forall|i: int| 0 <= i < path.len() implies left.contains(
            #[trigger] stride(path, i),
        ) by {
            let next = if i + 1 < path.len() {
                i + 1
            } else {
                0
            };
            assert(ties.contains(stride(path, i)));
            assert(ties.contains(stride(path, next)));
            let k = choose|k: int| 0 <= k < ties.len() && ties[k] == stride(path, next);
            assert(ties[k].0 == stride(path, i).1);
            lemma_kept(ties, ties.len() as int, stride(path, i));
        }
        law_no_circle(left, path);
    }
}

/// The view of a list of ties.
pub open spec fn tie_views(v: Seq<(String, String)>) -> Seq<(Seq<char>, Seq<char>)> {
    v.map_values(|x: (String, String)| (x.0@, x.1@))
}

fn push_tie(r: &mut Vec<(String, String)>, from: &str, to: &str)
    ensures
        tie_views(final(r)@) == tie_views(old(r)@).push((from@, to@)),
{
    let ghost before = r@;
    r.push((owned(from), owned(to)));
    assert(tie_views(r@) =~= tie_views(before).push((from@, to@)));
}

fn instance_id(t: &Types, name: &str) -> (r: Option<AnyTypeId>)
    ensures
        match r {
            Some(id) => type_run(id) == run_of(*t) && type_view(id) is Instance && instance_type(
                types_of(*t),
                name@,
            ) == Some(type_view(id)),
            None => instance_type(types_of(*t), name@) is None,
        },
{
    match extern_of(t, name, true) {
        None => None,
        Some(e) => match entity(&e) {
            Entity::Instance(id) => Some(id),
            _ => None,
        },
    }
}

fn check_takes(t: &Types, items: &[ComponentEntityType], made: &[AnyTypeId]) -> (r: bool)
    requires
        forall|i: int| 0 <= i < items@.len() ==> entity_run(#[trigger] items@[i]) == run_of(*t),
        types_run(made@, run_of(*t)),
    ensures
        r == takes(types_of(*t), entity_views(items@), type_views(made@)),
{
    let ghost w = types_of(*t);
    let ghost es = entity_views(items@);
    let ghost ms = type_views(made@);
    let mut i: usize = 0;
    while i < items.len()
        invariant
            i <= items@.len(),
            w == types_of(*t),
            es == entity_views(items@),
            ms == type_views(made@),
            forall|k: int| 0 <= k < items@.len() ==> entity_run(#[trigger] items@[k]) == run_of(*t),
            types_run(made@, run_of(*t)),
            forall|k: int| 0 <= k < i ==> !taken(w, #[trigger] es[k], ms),
        decreases items.len() - i,
    {
        assert(es[i as int] == entity_view(items@[i as int]));
        match entity(&items[i]) {
            Entity::Type(referenced, _) => {
                if traced(t, &referenced, made) {
                    assert(taken(w, es[i as int], ms));
                    return true;
                }
            },
            _ => {},
        }
        i += 1;
    }
    false
}

fn check_tied(t: &Types, from: &AnyTypeId, items: &[ComponentEntityType], to: &str) -> (r: bool)
    requires
        type_run(*from) == run_of(*t),
        forall|i: int| 0 <= i < items@.len() ==> entity_run(#[trigger] items@[i]) == run_of(*t),
    ensures
        r == match instance_type(types_of(*t), to@) {
            Some(b) => type_view(*from) != b && takes(
                types_of(*t),
                entity_views(items@),
                made_in(types_of(*t), b),
            ),
            None => false,
        },
{
    match instance_id(t, to) {
        None => false,
        Some(id) => {
            if same(from, &id) {
                return false;
            }
            let others = instance_items(t, &id);
            let mut made: Vec<AnyTypeId> = Vec::new();
            assert(type_views(made@) =~= Seq::empty());
            push_made(&mut made, t, &others);
            assert(type_views(made@) =~= made_in(types_of(*t), type_view(id)));
            check_takes(t, items, &made)
        },
    }
}

fn push_ties(r: &mut Vec<(String, String)>, t: &Types, names: &[String], from: &str)
    ensures
        tie_views(final(r)@) == tie_views(old(r)@) + ties_of(
            types_of(*t),
            views(names@),
            from@,
            names@.len() as int,
        ),
{
    let ghost w = types_of(*t);
    let ghost ns = views(names@);
    let ghost start = tie_views(r@);
    let id = instance_id(t, from);
    let items = match &id {
        Some(a) => instance_items(t, a),
        None => Vec::new(),
    };
    assert(start =~= start + ties_of(w, ns, from@, 0));
    let mut i: usize = 0;
    while i < names.len()
        invariant
            i <= names@.len(),
            w == types_of(*t),
            ns == views(names@),
            match id {
                Some(a) => type_run(a) == run_of(*t) && instance_type(w, from@) == Some(
                    type_view(a),
                ) && entity_views(items@) == wasm_instance(w, type_view(a)),
                None => instance_type(w, from@) is None,
            },
            forall|k: int| 0 <= k < items@.len() ==> entity_run(#[trigger] items@[k]) == run_of(*t),
            tie_views(r@) == start + ties_of(w, ns, from@, i as int),
        decreases names.len() - i,
    {
        let to = names[i].as_str();
        assert(ns[i as int] == to@);
        match &id {
            None => {},
            Some(a) => {
                if check_tied(t, a, &items, to) {
                    push_tie(r, from, to);
                    assert(start + ties_of(w, ns, from@, i + 1) =~= (start + ties_of(
                        w,
                        ns,
                        from@,
                        i as int,
                    )).push((from@, to@)));
                }
            },
        }
        i += 1;
    }
}

fn add_ties(r: &mut Vec<(String, String)>, wasm: &[u8])
    requires
        settled(wasm@),
    ensures
        tie_views(final(r)@) == tie_views(old(r)@) + ties(wasm@),
{
    let ghost start = tie_views(r@);
    match typed(wasm) {
        None => {
            assert(start =~= start + ties(wasm@));
        },
        Some(t) => {
            let names = extern_list(wasm, true);
            let ghost ns = views(names@);
            assert(start =~= start + ties_in(wasm@, ns, 0));
            let mut i: usize = 0;
            while i < names.len()
                invariant
                    i <= names@.len(),
                    types_of(t) == wasm@,
                    ns == views(names@),
                    tie_views(r@) == start + ties_in(wasm@, ns, i as int),
                decreases names.len() - i,
            {
                assert(ns[i as int] == names@[i as int]@);
                push_ties(r, &t, &names, names[i].as_str());
                assert(start + ties_in(wasm@, ns, i + 1) =~= start + ties_in(wasm@, ns, i as int)
                    + ties_of(wasm@, ns, ns[i as int], ns.len() as int));
                i += 1;
            }
        },
    }
}

fn check_apart(wasm: &[u8]) -> (r: bool)
    requires
        settled(wasm@),
    ensures
        r == types_apart(wasm@),
{
    match typed(wasm) {
        None => true,
        Some(t) => {
            let names = extern_list(wasm, true);
            let ghost ns = extern_names(wasm@, true);
            let mut x: usize = 0;
            while x < names.len()
                invariant
                    x <= names@.len(),
                    wasm_holds(wasm@),
                    types_of(t) == wasm@,
                    ns == extern_names(wasm@, true),
                    ns == views(names@),
                    forall|a: int, b: int|
                        0 <= a < b < ns.len() && a < x && instance_type(
                            wasm@,
                            #[trigger] ns[a],
                        ) is Some ==> instance_type(wasm@, ns[a]) != instance_type(
                            wasm@,
                            #[trigger] ns[b],
                        ),
                decreases names.len() - x,
            {
                assert(ns[x as int] == names@[x as int]@);
                let one = instance_id(&t, names[x].as_str());
                let mut y: usize = x + 1;
                while y < names.len()
                    invariant
                        x < y <= names@.len(),
                        wasm_holds(wasm@),
                        types_of(t) == wasm@,
                        ns == extern_names(wasm@, true),
                        ns == views(names@),
                        match one {
                            Some(a) => type_run(a) == run_of(t) && instance_type(
                                wasm@,
                                ns[x as int],
                            ) == Some(type_view(a)),
                            None => instance_type(wasm@, ns[x as int]) is None,
                        },
                        forall|b: int|
                            x < b < y && instance_type(wasm@, ns[x as int]) is Some
                                ==> instance_type(wasm@, ns[x as int]) != instance_type(
                                wasm@,
                                #[trigger] ns[b],
                            ),
                    decreases names.len() - y,
                {
                    assert(ns[y as int] == names@[y as int]@);
                    match (&one, instance_id(&t, names[y].as_str())) {
                        (Some(a), Some(b)) => {
                            if same(a, &b) {
                                assert(instance_type(wasm@, ns[x as int]) == instance_type(
                                    wasm@,
                                    ns[y as int],
                                ));
                                return false;
                            }
                        },
                        _ => {},
                    }
                    y += 1;
                }
                x += 1;
            }
            true
        },
    }
}

fn check_stand_in(wasm: &[u8]) -> (r: bool)
    requires
        settled(wasm@),
    ensures
        r == has_stand_in(wasm@),
{
    match typed(wasm) {
        None => false,
        Some(t) => {
            let names = extern_list(wasm, true);
            let ghost ns = extern_names(wasm@, true);
            let mut i: usize = 0;
            while i < names.len()
                invariant
                    i <= names@.len(),
                    wasm_holds(wasm@),
                    types_of(t) == wasm@,
                    ns == extern_names(wasm@, true),
                    ns == views(names@),
                    forall|k: int| 0 <= k < i ==> !stands_in(wasm@, #[trigger] ns[k]),
                decreases names.len() - i,
            {
                assert(ns[i as int] == names@[i as int]@);
                match extern_of(&t, names[i].as_str(), true) {
                    None => {},
                    Some(e) => match entity(&e) {
                        Entity::Type(referenced, created) => {
                            if kind(&created) == Kind::Resource && !same(&referenced, &created) {
                                assert(stands_in(wasm@, ns[i as int]));
                                return true;
                            }
                        },
                        _ => {},
                    },
                }
                i += 1;
            }
            false
        },
    }
}

fn check_starts(ties: &[(String, String)], name: &str) -> (r: bool)
    ensures
        r == starts(tie_views(ties@), name@),
{
    let ghost all = tie_views(ties@);
    let mut i: usize = 0;
    while i < ties.len()
        invariant
            i <= ties@.len(),
            all == tie_views(ties@),
            forall|k: int| 0 <= k < i ==> (#[trigger] all[k]).0 != name@,
        decreases ties.len() - i,
    {
        assert(all[i as int].0 == ties@[i as int].0@);
        if crate::text::same(ties[i].0.as_str(), name) {
            return true;
        }
        i += 1;
    }
    false
}

/// Do the ties drain?
pub fn check_drains(all: Vec<(String, String)>) -> (r: bool)
    ensures
        r == drains(tie_views(all@)),
{
    let mut ties = all;
    while ties.len() > 0
        invariant
            drains(tie_views(all@)) == drains(tie_views(ties@)),
        decreases ties.len(),
    {
        let ghost now = tie_views(ties@);
        let mut left: Vec<(String, String)> = Vec::new();
        let mut i: usize = 0;
        assert(tie_views(left@) =~= kept(now, 0));
        while i < ties.len()
            invariant
                i <= ties@.len(),
                now == tie_views(ties@),
                left@.len() <= i,
                tie_views(left@) == kept(now, i as int),
            decreases ties.len() - i,
        {
            assert(now[i as int] == (ties@[i as int].0@, ties@[i as int].1@));
            if check_starts(&ties, ties[i].1.as_str()) {
                push_tie(&mut left, ties[i].0.as_str(), ties[i].1.as_str());
                assert(left@.len() == tie_views(left@).len());
            }
            i += 1;
        }
        assert(now.len() == ties@.len());
        assert(tie_views(left@).len() == left@.len());
        if left.len() >= ties.len() {
            return false;
        }
        ties = left;
    }
    assert(tie_views(ties@).len() == 0);
    true
}

/// The binaries, as they are.
pub open spec fn binaries(parts: Seq<&[u8]>) -> Seq<Seq<u8>> {
    parts.map_values(|x: &[u8]| x@)
}

/// Do interfaces of the components not take from one another in a circle?
pub fn check_untangled(parts: &[&[u8]]) -> (r: bool)
    requires
        forall|i: int| 0 <= i < parts@.len() ==> settled((#[trigger] binaries(parts@)[i])),
    ensures
        r == untangled(binaries(parts@)),
{
    let ghost bs = binaries(parts@);
    let mut ties: Vec<(String, String)> = Vec::new();
    let mut i: usize = 0;
    assert(tie_views(ties@) =~= all_ties(bs, 0));
    while i < parts.len()
        invariant
            i <= parts@.len(),
            bs == binaries(parts@),
            forall|k: int| 0 <= k < parts@.len() ==> settled((#[trigger] bs[k])),
            tie_views(ties@) == all_ties(bs, i as int),
        decreases parts.len() - i,
    {
        assert(bs[i as int] == parts@[i as int]@);
        assert(settled(bs[i as int]));
        add_ties(&mut ties, parts[i]);
        i += 1;
    }
    let mut free = ties.len() == 0;
    assert(tie_views(ties@).len() == ties@.len());
    if !check_drains(ties) {
        return false;
    }
    let ghost none = free;
    let mut k: usize = 0;
    while k < parts.len()
        invariant
            k <= parts@.len(),
            bs == binaries(parts@),
            forall|a: int| 0 <= a < parts@.len() ==> settled((#[trigger] bs[a])),
            free == (none && forall|a: int| 0 <= a < k ==> !has_stand_in(#[trigger] bs[a])),
        decreases parts.len() - k,
    {
        assert(bs[k as int] == parts@[k as int]@);
        assert(settled(bs[k as int]));
        if check_stand_in(parts[k]) {
            assert(has_stand_in(bs[k as int]));
            free = false;
        }
        k += 1;
    }
    if free {
        return true;
    }
    let mut j: usize = 0;
    while j < parts.len()
        invariant
            j <= parts@.len(),
            bs == binaries(parts@),
            forall|k: int| 0 <= k < parts@.len() ==> settled((#[trigger] bs[k])),
            drains(all_ties(bs, bs.len() as int)),
            !(all_ties(bs, bs.len() as int).len() == 0 && forall|a: int|
                0 <= a < bs.len() ==> !has_stand_in(#[trigger] bs[a])),
            forall|k: int| 0 <= k < j ==> types_apart(#[trigger] bs[k]),
        decreases parts.len() - j,
    {
        assert(bs[j as int] == parts@[j as int]@);
        assert(settled(bs[j as int]));
        if !check_apart(parts[j]) {
            assert(!types_apart(bs[j as int]));
            return false;
        }
        j += 1;
    }
    true
}

} // verus!
