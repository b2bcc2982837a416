//! Resolved elements: every way and relation embeds the nodes it refers to,
//! transitively, in declared order.
use std::collections::HashMap;
use vstd::prelude::*;

use crate::model::{
    clash_at, copy_tags, entries_of, keys_of, kinds_clash, store_of, LoadError, Element, Node, OverpassTurbo, OverpassTurboFile, Relation, RelationMember, Way,
};

verus! {

/// A node as it appears in resolved output.
pub struct SimplifiedNode {
    pub id: u64,
    /// Bit pattern of the latitude in degrees.
    pub lat: u64,
    /// Bit pattern of the longitude in degrees.
    pub lon: u64,
    pub tags: Option<serde_json::Value>,
}

/// A relation whose members are flattened into the nodes they reach.
pub struct SimplifiedRelation {
    pub id: u64,
    pub members: Vec<SimplifiedNode>,
    pub tags: Option<serde_json::Value>,
}

/// A way whose node ids are replaced by the nodes themselves.
pub struct SimplifiedWay {
    pub id: u64,
    pub nodes: Vec<SimplifiedNode>,
}

/// Any resolved element.
pub enum SimplifiedElement {
    Node(SimplifiedNode),
    Relation(SimplifiedRelation),
    Way(SimplifiedWay),
}

/// The kind of an element.
#[derive(PartialEq, Eq, Structural, Clone, Copy, Debug)]
pub enum ElementKind {
    Node,
    Way,
    Relation,
}

/// Why an element could not be resolved.
pub enum ResolveError {
    /// The id is referenced but absent from the store.
    MissingReference(u64),
    /// A way names an id that is not a node.
    ReferenceKindMismatch(u64),
    /// A chain of relations, each referring to the next, that returns to its start.
    CyclicReference(Vec<u64>),
}

/// An element that could not be resolved, with the reason.
pub struct ResolveFailure {
    pub id: u64,
    pub error: ResolveError,
}

pub open spec fn leaf_of(n: Node) -> SimplifiedNode {
    SimplifiedNode { id: n.id, lat: n.lat, lon: n.lon, tags: n.tags }
}

/// The nodes that a way's node ids name, or `None` if one is absent or not a node.
pub open spec fn way_leaves(store: Map<u64, Element>, nodes: Seq<u64>) -> Option<
    Seq<SimplifiedNode>,
>
    decreases nodes.len(),
{
    if nodes.len() == 0 {
        Some(Seq::empty())
    } else {
        match way_leaves(store, nodes.drop_last()) {
            Some(prefix) => if store.contains_key(nodes.last()) {
                match store[nodes.last()] {
                    Element::Node(n) => Some(prefix.push(leaf_of(n))),
                    _ => None,
                }
            } else {
                None
            },
            None => None,
        }
    }
}

/// Resolution of an id, unfolding relations at most `fuel` levels deep.
pub open spec fn id_leaves(store: Map<u64, Element>, id: u64, fuel: nat) -> Option<
    Seq<SimplifiedNode>,
>
    decreases fuel, 0nat,
{
    if !store.contains_key(id) {
        None
    } else {
        match store[id] {
            Element::Node(n) => Some(seq![leaf_of(n)]),
            Element::Way(w) => way_leaves(store, w.nodes@),
            Element::Relation(r) => if fuel == 0 {
                None
            } else {
                members_leaves(store, r.members@, (fuel - 1) as nat)
            },
        }
    }
}

/// The concatenation of the members' resolutions in declared order, each with `fuel`.
pub open spec fn members_leaves(store: Map<u64, Element>, members: Seq<RelationMember>, fuel: nat) -> Option<
    Seq<SimplifiedNode>,
>
    decreases fuel, members.len() + 1,
{
    if members.len() == 0 {
        Some(Seq::empty())
    } else {
        match members_leaves(store, members.drop_last(), fuel) {
            Some(a) => match id_leaves(store, members.last().member_ref, fuel) {
                Some(b) => Some(a + b),
                None => None,
            },
            None => None,
        }
    }
}

/// The flattened nodes of a relation's members, if some finite unfolding reaches
/// only nodes; `None` if a reference is missing, mistyped or cyclic.
pub open spec fn relation_leaves(store: Map<u64, Element>, members: Seq<RelationMember>) -> Option<
    Seq<SimplifiedNode>,
> {
    if exists|f: nat| (#[trigger] members_leaves(store, members, f)) is Some {
        members_leaves(store, members, choose|f: nat| (#[trigger] members_leaves(store, members, f)) is Some)
    } else {
        None
    }
}

/// The flattened nodes that the element stored under `id` stands for.
pub open spec fn leaves_of(store: Map<u64, Element>, id: u64) -> Option<Seq<SimplifiedNode>> {
    if !store.contains_key(id) {
        None
    } else {
        element_leaves(store, store[id])
    }
}

/// The flattened nodes that an element stands for, its references looked up in `store`.
pub open spec fn element_leaves(store: Map<u64, Element>, e: Element) -> Option<Seq<SimplifiedNode>> {
    match e {
        Element::Node(n) => Some(seq![leaf_of(n)]),
        Element::Way(w) => way_leaves(store, w.nodes@),
        Element::Relation(r) => relation_leaves(store, r.members@),
    }
}

/// `s` is the resolved form of `e`, given its flattened nodes `leaves`.
pub open spec fn resolves_to(e: Element, leaves: Seq<SimplifiedNode>, s: SimplifiedElement) -> bool {
    match (e, s) {
        (Element::Node(n), SimplifiedElement::Node(sn)) => sn == leaf_of(n),
        (Element::Way(w), SimplifiedElement::Way(sw)) => sw.id == w.id && sw.nodes@ == leaves,
        (Element::Relation(r), SimplifiedElement::Relation(sr)) => sr.id == r.id && sr.members@
            == leaves && sr.tags == r.tags,
        _ => false,
    }
}

/// `out` holds the resolved form of every element of `store` that resolves, and
/// `failures` names each one that does not, with a true reason.
pub open spec fn resolution_holds(
    store: Map<u64, Element>,
    out: Map<u64, SimplifiedElement>,
    failures: Seq<ResolveFailure>,
) -> bool {
    &&& forall|k: u64| #[trigger]
        out.contains_key(k) <==> store.contains_key(k) && leaves_of(store, k) is Some
    &&& forall|k: u64| #[trigger]
        out.contains_key(k) ==> resolves_to(store[k], leaves_of(store, k)->0, out[k])
    &&& forall|i: int|
        0 <= i < failures.len() ==> store.contains_key(#[trigger] failures[i].id) && leaves_of(
            store,
            failures[i].id,
        ) is None && error_holds(store, failures[i].error) && error_from(
            store,
            failures[i].id,
            failures[i].error,
        ) && error_of(store, failures[i].id, failures[i].error)
    &&& forall|i: int, j: int|
        0 <= i < j < failures.len() ==> #[trigger] failures[i].id != #[trigger] failures[j].id
    &&& forall|k: u64|
        store.contains_key(k) && #[trigger] leaves_of(store, k) is None ==> exists|i: int|
            0 <= i < failures.len() && #[trigger] failures[i].id == k
}

/// The element under `a` is a relation with a member that refers to `b`.
pub open spec fn refers_to(store: Map<u64, Element>, a: u64, b: u64) -> bool {
    &&& store.contains_key(a)
    &&& store[a] is Relation
    &&& exists|i: int|
        0 <= i < store[a]->Relation_0.members@.len()
            && (#[trigger] store[a]->Relation_0.members@[i]).member_ref == b
}

/// A chain of relations, each referring to the next, that ends where it starts.
pub open spec fn is_cycle(store: Map<u64, Element>, c: Seq<u64>) -> bool {
    &&& c.len() >= 2
    &&& c[0] == c.last()
    &&& forall|j: int| 0 <= j < c.len() - 1 ==> #[trigger] refers_to(store, c[j], c[j + 1])
}

/// The error concerns `nodes[i]`, which is absent or not a node, and all ids
/// before it are nodes.
pub open spec fn way_error_at(store: Map<u64, Element>, nodes: Seq<u64>, i: int, e: ResolveError) -> bool {
    &&& 0 <= i < nodes.len()
    &&& forall|j: int| 0 <= j < i ==> store.contains_key(#[trigger] nodes[j]) && store[nodes[j]] is Node
    &&& match e {
        ResolveError::MissingReference(x) => x == nodes[i] && !store.contains_key(x),
        ResolveError::ReferenceKindMismatch(x) => x == nodes[i] && store.contains_key(x) && !(
        store[x] is Node),
        ResolveError::CyclicReference(_) => false,
    }
}

/// The error concerns the first id of `nodes` that is absent or not a node.
pub open spec fn way_error(store: Map<u64, Element>, nodes: Seq<u64>, e: ResolveError) -> bool {
    exists|i: int| #[trigger] way_error_at(store, nodes, i, e)
}

/// The element under `a` names `b` directly: as a relation member or a way node.
pub open spec fn links(store: Map<u64, Element>, a: u64, b: u64) -> bool {
    &&& store.contains_key(a)
    &&& match store[a] {
        Element::Relation(r) => exists|i: int|
            0 <= i < r.members@.len() && (#[trigger] r.members@[i]).member_ref == b,
        Element::Way(w) => w.nodes@.contains(b),
        Element::Node(_) => false,
    }
}

/// A chain of ids, each naming the next.
pub open spec fn is_path(store: Map<u64, Element>, p: Seq<u64>) -> bool {
    &&& p.len() >= 1
    &&& forall|j: int| 0 <= j < p.len() - 1 ==> #[trigger] links(store, p[j], p[j + 1])
}

/// `b` is `a` or is named, directly or through other elements, by `a`.
pub open spec fn reaches(store: Map<u64, Element>, a: u64, b: u64) -> bool {
    exists|p: Seq<u64>| #[trigger] is_path(store, p) && p[0] == a && p.last() == b
}

/// The error is met while resolving `start`: a missing id reachable from it, a
/// reachable way naming a non-node, or a cycle reachable from it.
pub open spec fn error_from(store: Map<u64, Element>, start: u64, e: ResolveError) -> bool {
    match e {
        ResolveError::MissingReference(x) => !store.contains_key(x) && reaches(store, start, x),
        ResolveError::ReferenceKindMismatch(x) => store.contains_key(x) && !(store[x] is Node)
            && exists|y: u64|
            #[trigger] reaches(store, start, y) && store.contains_key(y) && store[y] is Way
                && store[y]->Way_0.nodes@.contains(x),
        ResolveError::CyclicReference(c) => is_cycle(store, c@) && reaches(store, start, c@[0]),
    }
}

/// The error is met while resolving member `i`, and every member before it resolves.
pub open spec fn member_error_at(
    store: Map<u64, Element>,
    members: Seq<RelationMember>,
    i: int,
    e: ResolveError,
) -> bool {
    &&& 0 <= i < members.len()
    &&& forall|j: int| 0 <= j < i ==> (#[trigger] leaves_of(store, members[j].member_ref)) is Some
    &&& error_from(store, members[i].member_ref, e)
}

/// The error is met while resolving the first member that does not resolve.
pub open spec fn members_error(store: Map<u64, Element>, members: Seq<RelationMember>, e: ResolveError) -> bool {
    exists|i: int| #[trigger] member_error_at(store, members, i, e)
}

/// Every member's referenced element resolves.
pub open spec fn all_resolve(store: Map<u64, Element>, members: Seq<RelationMember>) -> bool {
    forall|j: int| 0 <= j < members.len() ==> (#[trigger] leaves_of(store, members[j].member_ref)) is Some
}

/// `e` is the error that resolving `id` gives, unfolding relations at most
/// `fuel` levels deep: an absent id is missing; a way reports its first bad
/// node; a relation passes on the own error of its first member that fails,
/// unless it reports a cycle met from it.
pub open spec fn id_error(store: Map<u64, Element>, id: u64, e: ResolveError, fuel: nat) -> bool
    decreases fuel, 0nat,
{
    if !store.contains_key(id) {
        e == ResolveError::MissingReference(id)
    } else {
        match store[id] {
            Element::Node(_) => false,
            Element::Way(w) => way_error(store, w.nodes@, e),
            Element::Relation(r) => (e is CyclicReference && error_from(store, id, e)) || (fuel > 0
                && members_error_upto(store, r.members@, e, (fuel - 1) as nat)),
        }
    }
}

/// `e` is the own error of the first member that fails, unfolding at most `fuel` levels.
pub open spec fn members_error_upto(
    store: Map<u64, Element>,
    members: Seq<RelationMember>,
    e: ResolveError,
    fuel: nat,
) -> bool
    decreases fuel, members.len() + 1,
{
    if members.len() == 0 {
        false
    } else {
        members_error_upto(store, members.drop_last(), e, fuel) || (all_resolve(
            store,
            members.drop_last(),
        ) && id_error(store, members.last().member_ref, e, fuel))
    }
}

/// `e` is the error that resolving `id` gives.
pub open spec fn error_of(store: Map<u64, Element>, id: u64, e: ResolveError) -> bool {
    exists|f: nat| #[trigger] id_error(store, id, e, f)
}

/// `e` is the own error of the first member that fails.
pub open spec fn relation_error(store: Map<u64, Element>, members: Seq<RelationMember>, e: ResolveError) -> bool {
    exists|f: nat| #[trigger] members_error_upto(store, members, e, f)
}

/// A member that fails after members that all resolve gives its error to the whole list.
proof fn lemma_members_error_at(
    store: Map<u64, Element>,
    ms: Seq<RelationMember>,
    i: int,
    e: ResolveError,
    f: nat,
)
    requires
        0 <= i < ms.len(),
        forall|j: int| 0 <= j < i ==> (#[trigger] leaves_of(store, ms[j].member_ref)) is Some,
        id_error(store, ms[i].member_ref, e, f),
    ensures
        members_error_upto(store, ms, e, f),
    decreases ms.len(),
{
    let init = ms.drop_last();
    if i == ms.len() - 1 {
        assert forall|j: int| 0 <= j < init.len() implies (#[trigger] leaves_of(
            store,
            init[j].member_ref,
        )) is Some by {
            assert(init[j] == ms[j]);
        }
    } else {
        assert forall|j: int| 0 <= j < i implies (#[trigger] leaves_of(
            store,
            init[j].member_ref,
        )) is Some by {
            assert(init[j] == ms[j]);
        }
        assert(init[i] == ms[i]);
        lemma_members_error_at(store, init, i, e, f);
    }
}

/// A way resolves only where every node id names a node.
proof fn lemma_way_all_nodes(store: Map<u64, Element>, nodes: Seq<u64>, i: int)
    requires
        way_leaves(store, nodes) is Some,
        0 <= i < nodes.len(),
    ensures
        store.contains_key(nodes[i]) && store[nodes[i]] is Node,
    decreases nodes.len(),
{
    if i < nodes.len() - 1 {
        assert(nodes.drop_last()[i] == nodes[i]);
        lemma_way_all_nodes(store, nodes.drop_last(), i);
    }
}

/// An element that names one that does not resolve does not resolve either.
proof fn lemma_link_unresolved(store: Map<u64, Element>, a: u64, b: u64)
    requires
        links(store, a, b),
        leaves_of(store, b) is None,
    ensures
        leaves_of(store, a) is None,
{
    match store[a] {
        Element::Way(w) => {
            if way_leaves(store, w.nodes@) is Some {
                let i = choose|i: int| 0 <= i < w.nodes@.len() && w.nodes@[i] == b;
                lemma_way_all_nodes(store, w.nodes@, i);
            }
        },
        Element::Relation(r) => {
            if relation_leaves(store, r.members@) is Some {
                let f = choose|f: nat| (#[trigger] members_leaves(store, r.members@, f)) is Some;
                let i = choose|i: int|
                    0 <= i < r.members@.len() && (#[trigger] r.members@[i]).member_ref == b;
                lemma_members_each(store, r.members@, f, i);
                lemma_id_leaves_exact(store, b, f);
            }
        },
        _ => {},
    }
}

/// Whatever reaches an element that does not resolve does not resolve.
proof fn lemma_reach_unresolved(store: Map<u64, Element>, p: Seq<u64>)
    requires
        is_path(store, p),
        leaves_of(store, p.last()) is None,
    ensures
        leaves_of(store, p[0]) is None,
    decreases p.len(),
{
    if p.len() > 1 {
        let q = p.subrange(1, p.len() as int);
        assert forall|j: int| 0 <= j < q.len() - 1 implies #[trigger] links(store, q[j], q[j + 1]) by {
            assert(q[j] == p[j + 1] && q[j + 1] == p[j + 1 + 1]);
        }
        assert(q.last() == p.last());
        lemma_reach_unresolved(store, q);
        let z: int = 0;
        assert(links(store, p[z], p[z + 1]));
        lemma_link_unresolved(store, p[0], p[1]);
    }
}

/// A failing member list holds a first failing member whose own error it is.
proof fn lemma_members_error_index(
    store: Map<u64, Element>,
    ms: Seq<RelationMember>,
    e: ResolveError,
    f: nat,
) -> (i: int)
    requires
        members_error_upto(store, ms, e, f),
    ensures
        0 <= i < ms.len(),
        forall|j: int| 0 <= j < i ==> (#[trigger] leaves_of(store, ms[j].member_ref)) is Some,
        id_error(store, ms[i].member_ref, e, f),
    decreases ms.len(),
{
    let init = ms.drop_last();
    if members_error_upto(store, init, e, f) {
        let i = lemma_members_error_index(store, init, e, f);
        assert(init[i] == ms[i]);
        assert forall|j: int| 0 <= j < i implies (#[trigger] leaves_of(store, ms[j].member_ref)) is Some by {
            assert(init[j] == ms[j]);
        }
        i
    } else {
        assert forall|j: int| 0 <= j < ms.len() - 1 implies (#[trigger] leaves_of(
            store,
            ms[j].member_ref,
        )) is Some by {
            assert(init[j] == ms[j]);
        }
        ms.len() - 1
    }
}

/// An id with an error does not resolve.
proof fn lemma_error_unresolved(store: Map<u64, Element>, id: u64, e: ResolveError, f: nat)
    requires
        id_error(store, id, e, f),
    ensures
        leaves_of(store, id) is None,
    decreases f,
{
    if store.contains_key(id) {
        match store[id] {
            Element::Way(w) => {
                let i = choose|i: int| #[trigger] way_error_at(store, w.nodes@, i, e);
                if way_leaves(store, w.nodes@) is Some {
                    lemma_way_all_nodes(store, w.nodes@, i);
                }
            },
            Element::Relation(r) => {
                if e is CyclicReference && error_from(store, id, e) {
                    let c = e->CyclicReference_0@;
                    let p = choose|p: Seq<u64>| #[trigger] is_path(store, p) && p[0] == id && p.last() == c[0];
                    lemma_cycle_fails(store, c);
                    lemma_reach_unresolved(store, p);
                } else {
                    let i = lemma_members_error_index(store, r.members@, e, (f - 1) as nat);
                    lemma_error_unresolved(store, r.members@[i].member_ref, e, (f - 1) as nat);
                    assert(links(store, id, r.members@[i].member_ref));
                    lemma_link_unresolved(store, id, r.members@[i].member_ref);
                }
            },
            _ => {},
        }
    }
}

/// Resolving an element gives one error: two errors met resolving the same id,
/// neither of them a cycle, are the same.
pub proof fn lemma_error_unique(store: Map<u64, Element>, id: u64, a: ResolveError, b: ResolveError)
    requires
        error_of(store, id, a),
        error_of(store, id, b),
        !(a is CyclicReference),
        !(b is CyclicReference),
    ensures
        a == b,
{
    let fa = choose|f: nat| #[trigger] id_error(store, id, a, f);
    let fb = choose|f: nat| #[trigger] id_error(store, id, b, f);
    lemma_id_error_unique(store, id, a, b, fa, fb);
}

proof fn lemma_id_error_unique(
    store: Map<u64, Element>,
    id: u64,
    a: ResolveError,
    b: ResolveError,
    fa: nat,
    fb: nat,
)
    requires
        id_error(store, id, a, fa),
        id_error(store, id, b, fb),
        !(a is CyclicReference),
        !(b is CyclicReference),
    ensures
        a == b,
    decreases fa,
{
    if store.contains_key(id) {
        match store[id] {
            Element::Way(w) => {
                let ia = choose|i: int| #[trigger] way_error_at(store, w.nodes@, i, a);
                let ib = choose|i: int| #[trigger] way_error_at(store, w.nodes@, i, b);
                if ia < ib {
                    assert(store.contains_key(w.nodes@[ia]) && store[w.nodes@[ia]] is Node);
                } else if ib < ia {
                    assert(store.contains_key(w.nodes@[ib]) && store[w.nodes@[ib]] is Node);
                }
            },
            Element::Relation(r) => {
                let ms = r.members@;
                let ia = lemma_members_error_index(store, ms, a, (fa - 1) as nat);
                let ib = lemma_members_error_index(store, ms, b, (fb - 1) as nat);
                if ia < ib {
                    lemma_error_unresolved(store, ms[ia].member_ref, a, (fa - 1) as nat);
                } else if ib < ia {
                    lemma_error_unresolved(store, ms[ib].member_ref, b, (fb - 1) as nat);
                } else {
                    lemma_id_error_unique(store, ms[ia].member_ref, a, b, (fa - 1) as nat, (fb - 1) as nat);
                }
            },
            _ => {},
        }
    }
}

/// Nothing but an absent id itself is reachable from it, so the only error met
/// from it is that it is missing.
pub proof fn lemma_absent_error(store: Map<u64, Element>, x: u64, e: ResolveError)
    requires
        !store.contains_key(x),
        error_from(store, x, e),
    ensures
        e == ResolveError::MissingReference(x),
{
    assert forall|y: u64| reaches(store, x, y) implies y == x by {
        let p = choose|p: Seq<u64>| #[trigger] is_path(store, p) && p[0] == x && p.last() == y;
        if p.len() > 1 {
            let z: int = 0;
            assert(links(store, p[z], p[z + 1]));
        }
    }
    if let ResolveError::CyclicReference(c) = e {
        let z: int = 0;
        assert(refers_to(store, c@[z], c@[z + 1]));
    }
}

/// Where no missing id and no way naming a non-node is reachable from `start`,
/// the error met from it is a cycle.
pub proof fn lemma_only_cycles_left(store: Map<u64, Element>, start: u64, e: ResolveError)
    requires
        error_from(store, start, e),
        forall|x: u64| #[trigger] reaches(store, start, x) ==> store.contains_key(x),
        forall|y: u64, x: u64|
            #![trigger reaches(store, start, y), store[y]->Way_0.nodes@.contains(x)]
            reaches(store, start, y) && store.contains_key(y) && store[y] is Way
                && store[y]->Way_0.nodes@.contains(x) ==> store.contains_key(x) && store[x] is Node,
    ensures
        e is CyclicReference,
{
}

proof fn lemma_reaches_self(store: Map<u64, Element>, a: u64)
    ensures
        reaches(store, a, a),
{
    let p = seq![a];
    assert(is_path(store, p));
}

proof fn lemma_reaches_step(store: Map<u64, Element>, a: u64, b: u64, x: u64)
    requires
        links(store, a, b),
        reaches(store, b, x),
    ensures
        reaches(store, a, x),
{
    let p = choose|p: Seq<u64>| #[trigger] is_path(store, p) && p[0] == b && p.last() == x;
    let q = seq![a] + p;
    assert forall|j: int| 0 <= j < q.len() - 1 implies #[trigger] links(store, q[j], q[j + 1]) by {
        if j > 0 {
            assert(q[j] == p[j - 1] && q[j + 1] == p[j]);
            assert(links(store, p[j - 1], p[j - 1 + 1]));
        }
    }
    assert(is_path(store, q));
}

/// An error met from `b` is met from any `a` that names `b`.
proof fn lemma_error_step(store: Map<u64, Element>, a: u64, b: u64, e: ResolveError)
    requires
        links(store, a, b),
        error_from(store, b, e),
    ensures
        error_from(store, a, e),
{
    match e {
        ResolveError::MissingReference(x) => lemma_reaches_step(store, a, b, x),
        ResolveError::ReferenceKindMismatch(x) => {
            let y = choose|y: u64|
                #[trigger] reaches(store, b, y) && store.contains_key(y) && store[y] is Way
                    && store[y]->Way_0.nodes@.contains(x);
            lemma_reaches_step(store, a, b, y);
        },
        ResolveError::CyclicReference(c) => lemma_reaches_step(store, a, b, c@[0]),
    }
}

/// A way's own error is an error met from the way's id.
proof fn lemma_way_error_from(store: Map<u64, Element>, id: u64, e: ResolveError)
    requires
        store.contains_key(id),
        store[id] is Way,
        way_error(store, store[id]->Way_0.nodes@, e),
    ensures
        error_from(store, id, e),
{
    let nodes = store[id]->Way_0.nodes@;
    let i = choose|i: int| #[trigger] way_error_at(store, nodes, i, e);
    assert(nodes.contains(nodes[i]));
    lemma_reaches_self(store, id);
    if let ResolveError::MissingReference(x) = e {
        lemma_reaches_self(store, x);
        lemma_reaches_step(store, id, x, x);
    }
}

/// Pushing `k` adds exactly `k` to what a sequence contains.
proof fn lemma_push_contains(prev: Seq<u64>, k: u64)
    ensures
        forall|x: u64| #[trigger] prev.push(k).contains(x) == (prev.contains(x) || x == k),
{
    let next = prev.push(k);
    assert forall|x: u64| #[trigger] next.contains(x) == (prev.contains(x) || x == k) by {
        if x == k {
            assert(next[prev.len() as int] == k);
        }
        if prev.contains(x) {
            let j = choose|j: int| 0 <= j < prev.len() && prev[j] == x;
            assert(next[j] == x);
        }
        if next.contains(x) {
            let j = choose|j: int| 0 <= j < next.len() && next[j] == x;
            if j < prev.len() {
                assert(prev[j] == x);
            }
        }
    }
}

/// What an error claims of the store holds.
pub open spec fn error_holds(store: Map<u64, Element>, e: ResolveError) -> bool {
    match e {
        ResolveError::MissingReference(x) => !store.contains_key(x),
        ResolveError::ReferenceKindMismatch(x) => store.contains_key(x) && !(store[x] is Node),
        ResolveError::CyclicReference(c) => is_cycle(store, c@),
    }
}

proof fn lemma_members_mono(store: Map<u64, Element>, ms: Seq<RelationMember>, f1: nat, f2: nat)
    requires
        f1 <= f2,
        members_leaves(store, ms, f1) is Some,
    ensures
        members_leaves(store, ms, f2) == members_leaves(store, ms, f1),
    decreases f1, ms.len() + 1,
{
    if ms.len() > 0 {
        lemma_members_mono(store, ms.drop_last(), f1, f2);
        lemma_id_mono(store, ms.last().member_ref, f1, f2);
    }
}

proof fn lemma_id_mono(store: Map<u64, Element>, id: u64, f1: nat, f2: nat)
    requires
        f1 <= f2,
        id_leaves(store, id, f1) is Some,
    ensures
        id_leaves(store, id, f2) == id_leaves(store, id, f1),
    decreases f1, 0nat,
{
    if store.contains_key(id) {
        if let Element::Relation(r) = store[id] {
            lemma_members_mono(store, r.members@, (f1 - 1) as nat, (f2 - 1) as nat);
        }
    }
}

/// Any fuel that resolves the members gives the same result as `relation_leaves`.
proof fn lemma_relation_leaves_exact(store: Map<u64, Element>, ms: Seq<RelationMember>, f: nat)
    requires
        members_leaves(store, ms, f) is Some,
    ensures
        relation_leaves(store, ms) == members_leaves(store, ms, f),
{
    let g = choose|g: nat| (#[trigger] members_leaves(store, ms, g)) is Some;
    assert(members_leaves(store, ms, g) is Some);
    if f <= g {
        lemma_members_mono(store, ms, f, g);
    } else {
        lemma_members_mono(store, ms, g, f);
    }
}

/// Resolution with any sufficient fuel agrees with `leaves_of`.
proof fn lemma_id_leaves_exact(store: Map<u64, Element>, id: u64, f: nat)
    requires
        id_leaves(store, id, f) is Some,
    ensures
        leaves_of(store, id) == id_leaves(store, id, f),
{
    if let Element::Relation(r) = store[id] {
        lemma_relation_leaves_exact(store, r.members@, (f - 1) as nat);
    }
}

/// A resolved id is resolved at some fuel.
proof fn lemma_leaves_of_fuel(store: Map<u64, Element>, id: u64) -> (f: nat)
    requires
        leaves_of(store, id) is Some,
    ensures
        id_leaves(store, id, f) == leaves_of(store, id),
{
    if let Element::Relation(r) = store[id] {
        let g = choose|g: nat| (#[trigger] members_leaves(store, r.members@, g)) is Some;
        g + 1
    } else {
        0
    }
}

/// Members that resolve together each resolve.
proof fn lemma_members_each(store: Map<u64, Element>, ms: Seq<RelationMember>, f: nat, i: int)
    requires
        members_leaves(store, ms, f) is Some,
        0 <= i < ms.len(),
    ensures
        id_leaves(store, ms[i].member_ref, f) is Some,
    decreases ms.len(),
{
    if i < ms.len() - 1 {
        lemma_members_each(store, ms.drop_last(), f, i);
    }
}

impl SimplifiedNode {
    /// The resolved form of a node: the same fields.
    pub fn from(node: &Node) -> (r: SimplifiedNode)
        ensures
            r == leaf_of(*node),
    {
        SimplifiedNode { id: node.id, lat: node.lat, lon: node.lon, tags: copy_tags(&node.tags) }
    }

    pub fn copy(&self) -> (r: SimplifiedNode)
        ensures
            r == *self,
    {
        SimplifiedNode { id: self.id, lat: self.lat, lon: self.lon, tags: copy_tags(&self.tags) }
    }
}

fn copy_leaves(v: &Vec<SimplifiedNode>) -> (r: Vec<SimplifiedNode>)
    ensures
        r@ == v@,
{
    let mut r: Vec<SimplifiedNode> = Vec::new();
    let mut i: usize = 0;
    while i < v.len()
        invariant
            i <= v.len(),
            r@ == v@.subrange(0, i as int),
        decreases v.len() - i,
    {
        r.push(v[i].copy());
        i = i + 1;
        assert(r@ =~= v@.subrange(0, i as int));
    }
    assert(v@.subrange(0, v.len() as int) =~= v@);
    r
}

impl ResolveError {
    pub fn copy(&self) -> (r: ResolveError)
        ensures
            same_error(*self, r),
    {
        match self {
            ResolveError::MissingReference(x) => ResolveError::MissingReference(*x),
            ResolveError::ReferenceKindMismatch(x) => ResolveError::ReferenceKindMismatch(*x),
            ResolveError::CyclicReference(c) => ResolveError::CyclicReference(c.clone()),
        }
    }
}

/// What a resolution result claims of the store holds: a success carries
/// `leaves`, and an error means there are none and is true of the store.
pub open spec fn result_holds(
    store: Map<u64, Element>,
    leaves: Option<Seq<SimplifiedNode>>,
    r: Result<Vec<SimplifiedNode>, ResolveError>,
) -> bool {
    match r {
        Ok(v) => leaves == Some(v@),
        Err(e) => leaves is None && error_holds(store, e),
    }
}

/// A result for `id` is right: its flattened nodes if it resolves, and
/// otherwise an error that is true of the store and met while resolving `id`.
pub open spec fn outcome_holds(
    store: Map<u64, Element>,
    id: u64,
    r: Result<Vec<SimplifiedNode>, ResolveError>,
) -> bool {
    &&& result_holds(store, leaves_of(store, id), r)
    &&& r matches Err(e) ==> error_from(store, id, e) && error_of(store, id, e)
}

/// The two errors are of one variant and carry the same ids.
pub open spec fn same_error(a: ResolveError, b: ResolveError) -> bool {
    match (a, b) {
        (ResolveError::MissingReference(x), ResolveError::MissingReference(y)) => x == y,
        (ResolveError::ReferenceKindMismatch(x), ResolveError::ReferenceKindMismatch(y)) => x == y,
        (ResolveError::CyclicReference(x), ResolveError::CyclicReference(y)) => x@ == y@,
        _ => false,
    }
}

proof fn lemma_id_error_same(
    store: Map<u64, Element>,
    id: u64,
    a: ResolveError,
    b: ResolveError,
    f: nat,
)
    requires
        same_error(a, b),
        id_error(store, id, a, f),
    ensures
        id_error(store, id, b, f),
    decreases f, 0nat,
{
    if store.contains_key(id) {
        match store[id] {
            Element::Way(w) => {
                let i = choose|i: int| #[trigger] way_error_at(store, w.nodes@, i, a);
                assert(way_error_at(store, w.nodes@, i, b));
            },
            Element::Relation(r) => {
                if !(a is CyclicReference && error_from(store, id, a)) {
                    lemma_members_error_same(store, r.members@, a, b, (f - 1) as nat);
                }
            },
            _ => {},
        }
    }
}

proof fn lemma_members_error_same(
    store: Map<u64, Element>,
    ms: Seq<RelationMember>,
    a: ResolveError,
    b: ResolveError,
    f: nat,
)
    requires
        same_error(a, b),
        members_error_upto(store, ms, a, f),
    ensures
        members_error_upto(store, ms, b, f),
    decreases f, ms.len() + 1,
{
    if ms.len() > 0 {
        if members_error_upto(store, ms.drop_last(), a, f) {
            lemma_members_error_same(store, ms.drop_last(), a, b, f);
        } else {
            lemma_id_error_same(store, ms.last().member_ref, a, b, f);
        }
    }
}

fn copy_result(r: &Result<Vec<SimplifiedNode>, ResolveError>) -> (c: Result<Vec<SimplifiedNode>, ResolveError>)
    ensures
        forall|store: Map<u64, Element>, id: u64|
            outcome_holds(store, id, *r) ==> #[trigger] outcome_holds(store, id, c),
        r is Ok <==> c is Ok,
{
    match r {
        Ok(v) => Ok(copy_leaves(v)),
        Err(e) => {
            let c = e.copy();
            proof {
                assert forall|store: Map<u64, Element>, id: u64|
                    outcome_holds(store, id, Err(*e)) implies #[trigger] outcome_holds(
                    store,
                    id,
                    Err(c),
                ) by {
                    let f = choose|f: nat| #[trigger] id_error(store, id, *e, f);
                    lemma_id_error_same(store, id, *e, c, f);
                }
            }
            Err(c)
        },
    }
}

/// Resolves the node ids of a way, in order.
fn resolve_way_nodes(store: &OverpassTurbo, nodes: &Vec<u64>) -> (r: Result<Vec<SimplifiedNode>, ResolveError>)
    ensures
        result_holds(store@, way_leaves(store@, nodes@), r),
        r matches Err(e) ==> way_error(store@, nodes@, e),
{
    let mut acc: Vec<SimplifiedNode> = Vec::new();
    let mut i: usize = 0;
    while i < nodes.len()
        invariant
            i <= nodes.len(),
            way_leaves(store@, nodes@.subrange(0, i as int)) == Some(acc@),
            forall|j: int|
                0 <= j < i ==> store@.contains_key(#[trigger] nodes@[j]) && store@[nodes@[j]] is Node,
        decreases nodes.len() - i,
    {
        let id = nodes[i];
        assert(nodes@[i as int] == id);
        assert(nodes@.subrange(0, i + 1).drop_last() =~= nodes@.subrange(0, i as int));
        match store.get(&id) {
            Some(Element::Node(n)) => {
                acc.push(SimplifiedNode::from(n));
            },
            Some(_) => {
                proof { lemma_way_prefix_fails(store@, nodes@, i + 1); }
                let e = ResolveError::ReferenceKindMismatch(id);
                assert(way_error_at(store@, nodes@, i as int, e));
                return Err(e);
            },
            None => {
                proof { lemma_way_prefix_fails(store@, nodes@, i + 1); }
                let e = ResolveError::MissingReference(id);
                assert(way_error_at(store@, nodes@, i as int, e));
                return Err(e);
            },
        }
        i = i + 1;
    }
    assert(nodes@.subrange(0, nodes.len() as int) =~= nodes@);
    Ok(acc)
}

/// The concatenation, in declared order, of what each member's referenced
/// element resolves to; `None` if one of them does not resolve.
pub open spec fn members_concat(store: Map<u64, Element>, members: Seq<RelationMember>) -> Option<
    Seq<SimplifiedNode>,
>
    decreases members.len(),
{
    if members.len() == 0 {
        Some(Seq::empty())
    } else {
        match members_concat(store, members.drop_last()) {
            Some(a) => match leaves_of(store, members.last().member_ref) {
                Some(b) => Some(a + b),
                None => None,
            },
            None => None,
        }
    }
}

/// A relation resolves to the concatenation of its members' own resolutions in
/// declared order: a member relation contributes its already flattened nodes,
/// a way its nodes, a node itself.
pub proof fn lemma_relation_flattens(store: Map<u64, Element>, members: Seq<RelationMember>)
    ensures
        relation_leaves(store, members) == members_concat(store, members),
    decreases members.len(),
{
    if members.len() > 0 {
        let init = members.drop_last();
        let last = members.last().member_ref;
        lemma_relation_flattens(store, init);
        if relation_leaves(store, members) is Some {
            let f = choose|f: nat| (#[trigger] members_leaves(store, members, f)) is Some;
            lemma_relation_leaves_exact(store, init, f);
            lemma_id_leaves_exact(store, last, f);
            lemma_relation_leaves_exact(store, members, f);
        } else if members_concat(store, members) is Some {
            let f1 = choose|f: nat| (#[trigger] members_leaves(store, init, f)) is Some;
            let f2 = lemma_leaves_of_fuel(store, last);
            let big: nat = if f1 > f2 { f1 } else { f2 };
            lemma_members_mono(store, init, f1, big);
            lemma_id_mono(store, last, f2, big);
            assert(members_leaves(store, members, big) is Some);
        }
    }
}

/// A way that names an id absent from the store does not resolve.
pub proof fn lemma_missing_node_fails(store: Map<u64, Element>, nodes: Seq<u64>, x: u64)
    requires
        nodes.contains(x),
        !store.contains_key(x),
    ensures
        way_leaves(store, nodes) is None,
    decreases nodes.len(),
{
    if nodes.last() != x {
        let j = choose|j: int| 0 <= j < nodes.len() && nodes[j] == x;
        assert(nodes.drop_last()[j] == x);
        lemma_missing_node_fails(store, nodes.drop_last(), x);
    }
}

/// No relation on a cycle of references resolves, whatever the cycle's length.
pub proof fn lemma_cycle_fails(store: Map<u64, Element>, c: Seq<u64>)
    requires
        is_cycle(store, c),
    ensures
        forall|j: int| 0 <= j < c.len() ==> leaves_of(store, #[trigger] c[j]) is None,
{
    assert forall|j: int| 0 <= j < c.len() implies leaves_of(store, #[trigger] c[j]) is None by {
        if leaves_of(store, c[j]) is Some {
            let f = lemma_leaves_of_fuel(store, c[j]);
            lemma_cycle_unresolvable(store, c, f);
        }
    }
}

/// A way that fails on a prefix of its nodes fails as a whole.
proof fn lemma_way_prefix_fails(store: Map<u64, Element>, nodes: Seq<u64>, k: int)
    requires
        0 <= k <= nodes.len(),
        way_leaves(store, nodes.subrange(0, k)) is None,
    ensures
        way_leaves(store, nodes) is None,
    decreases nodes.len() - k,
{
    if k < nodes.len() {
        assert(nodes.subrange(0, k + 1).drop_last() =~= nodes.subrange(0, k));
        lemma_way_prefix_fails(store, nodes, k + 1);
    } else {
        assert(nodes.subrange(0, k) =~= nodes);
    }
}

impl SimplifiedWay {
    /// Resolves a way's node ids against `store`, in order; duplicates are kept.
    pub fn from(way: &Way, overpass_turbo: &OverpassTurbo) -> (r: Result<SimplifiedWay, ResolveError>)
        ensures
            match r {
                Ok(s) => s.id == way.id && way_leaves(overpass_turbo@, way.nodes@) == Some(s.nodes@),
                Err(e) => way_leaves(overpass_turbo@, way.nodes@) is None
                    && error_holds(overpass_turbo@, e) && way_error(overpass_turbo@, way.nodes@, e),
            },
    {
        match resolve_way_nodes(overpass_turbo, &way.nodes) {
            Ok(nodes) => Ok(SimplifiedWay { id: way.id, nodes }),
            Err(e) => Err(e),
        }
    }
}

impl SimplifiedRelation {
    /// Flattens a relation's members, in declared order, into the nodes they reach.
    pub fn from(relation: &Relation, overpass_turbo: &OverpassTurbo) -> (r: Result<
        SimplifiedRelation,
        ResolveError,
    >)
        ensures
            match r {
                Ok(s) => s.id == relation.id && s.tags == relation.tags && relation_leaves(
                    overpass_turbo@,
                    relation.members@,
                ) == Some(s.members@),
                Err(e) => relation_leaves(overpass_turbo@, relation.members@) is None
                    && error_holds(overpass_turbo@, e) && members_error(
                    overpass_turbo@,
                    relation.members@,
                    e,
                ) && relation_error(overpass_turbo@, relation.members@, e),
            },
    {
        let mut resolver = Resolver::new();
        assert(resolver.idle(overpass_turbo@));
        match resolver.resolve_members(overpass_turbo, &relation.members) {
            Ok(members) => Ok(
                SimplifiedRelation { id: relation.id, members, tags: copy_tags(&relation.tags) },
            ),
            Err(e) => Err(e),
        }
    }
}

impl SimplifiedElement {
    pub open spec fn spec_id(&self) -> u64 {
        match self {
            SimplifiedElement::Node(n) => n.id,
            SimplifiedElement::Way(w) => w.id,
            SimplifiedElement::Relation(r) => r.id,
        }
    }

    pub open spec fn spec_kind(&self) -> ElementKind {
        match self {
            SimplifiedElement::Node(_) => ElementKind::Node,
            SimplifiedElement::Way(_) => ElementKind::Way,
            SimplifiedElement::Relation(_) => ElementKind::Relation,
        }
    }

    pub fn id(&self) -> (r: u64)
        ensures
            r == self.spec_id(),
    {
        match self {
            SimplifiedElement::Node(node) => node.id,
            SimplifiedElement::Way(way) => way.id,
            SimplifiedElement::Relation(relation) => relation.id,
        }
    }

    pub fn kind(&self) -> (r: ElementKind)
        ensures
            r == self.spec_kind(),
    {
        match self {
            SimplifiedElement::Node(_) => ElementKind::Node,
            SimplifiedElement::Way(_) => ElementKind::Way,
            SimplifiedElement::Relation(_) => ElementKind::Relation,
        }
    }

    /// Resolves one element against `store`: a node is kept, a way and a
    /// relation get the nodes they reach.
    pub fn from(element: &Element, overpass_turbo: &OverpassTurbo) -> (r: Result<
        SimplifiedElement,
        ResolveError,
    >)
        ensures
            match r {
                Ok(s) => element_leaves(overpass_turbo@, *element) matches Some(l) && resolves_to(
                    *element,
                    l,
                    s,
                ),
                Err(e) => element_leaves(overpass_turbo@, *element) is None && error_holds(
                    overpass_turbo@,
                    e,
                ) && match *element {
                    Element::Way(w) => way_error(overpass_turbo@, w.nodes@, e),
                    Element::Relation(rel) => members_error(overpass_turbo@, rel.members@, e)
                        && relation_error(overpass_turbo@, rel.members@, e),
                    Element::Node(_) => false,
                },
            },
    {
        match element {
            Element::Way(way) => match SimplifiedWay::from(way, overpass_turbo) {
                Ok(w) => Ok(SimplifiedElement::Way(w)),
                Err(e) => Err(e),
            },
            Element::Node(node) => Ok(SimplifiedElement::Node(SimplifiedNode::from(node))),
            Element::Relation(relation) => match SimplifiedRelation::from(relation, overpass_turbo) {
                Ok(rel) => Ok(SimplifiedElement::Relation(rel)),
                Err(e) => Err(e),
            },
        }
    }
}

/// Builds the resolved form of `e` from its flattened nodes.
fn assemble(e: &Element, leaves: Vec<SimplifiedNode>) -> (r: SimplifiedElement)
    requires
        e is Node ==> leaves@ == seq![leaf_of(e->Node_0)],
    ensures
        resolves_to(*e, leaves@, r),
{
    match e {
        Element::Node(node) => SimplifiedElement::Node(SimplifiedNode::from(node)),
        Element::Way(way) => SimplifiedElement::Way(SimplifiedWay { id: way.id, nodes: leaves }),
        Element::Relation(relation) => SimplifiedElement::Relation(
            SimplifiedRelation { id: relation.id, members: leaves, tags: copy_tags(&relation.tags) },
        ),
    }
}

/// Resolved elements indexed by id.
pub struct SimplifiedOverpassTurbo(HashMap<u64, SimplifiedElement>);

impl View for SimplifiedOverpassTurbo {
    type V = Map<u64, SimplifiedElement>;

    closed spec fn view(&self) -> Map<u64, SimplifiedElement> {
        self.0@
    }
}

/// `m` without its entries of the given kind.
pub open spec fn pruned(m: Map<u64, SimplifiedElement>, kind: ElementKind) -> Map<
    u64,
    SimplifiedElement,
> {
    m.restrict(m.dom().filter(|k: u64| m[k].spec_kind() != kind))
}

impl SimplifiedOverpassTurbo {
    /// Resolves every element of a store, with the elements that failed and
    /// the number of resolutions computed: each id is resolved once, however
    /// many relations refer to it.
    pub fn from_struct(overpass_turbo: OverpassTurbo) -> (r: (
        SimplifiedOverpassTurbo,
        Vec<ResolveFailure>,
        usize,
    ))
        ensures
            resolution_holds(overpass_turbo@, r.0@, r.1@),
            r.2 == overpass_turbo@.len(),
    {
        let mut resolver = Resolver::new();
        assert(resolver.idle(overpass_turbo@));
        let (out, failures) = resolver.resolve_all(&overpass_turbo);
        (out, failures, resolver.expansions())
    }

    /// Indexes the elements of an export by id, then resolves them; fails
    /// where elements of different kinds share an id.
    pub fn from_file(overpass_turbo_file: OverpassTurboFile) -> (r: Result<
        (SimplifiedOverpassTurbo, Vec<ResolveFailure>, usize),
        LoadError,
    >)
        ensures
            match r {
                Ok(t) => !kinds_clash(overpass_turbo_file.elements@) && resolution_holds(
                    store_of(overpass_turbo_file.elements@),
                    t.0@,
                    t.1@,
                ) && t.2 == store_of(overpass_turbo_file.elements@).len(),
                Err(LoadError::KindCollision(x)) => clash_at(overpass_turbo_file.elements@, x),
            },
    {
        match OverpassTurbo::from_file(overpass_turbo_file) {
            Ok(store) => Ok(SimplifiedOverpassTurbo::from_struct(store)),
            Err(e) => Err(e),
        }
    }

    pub fn insert(&mut self, k: u64, v: SimplifiedElement) -> (r: Option<SimplifiedElement>)
        ensures
            final(self)@ == old(self)@.insert(k, v),
            r == old(self)@.get(k),
    {
        broadcast use vstd::std_specs::hash::group_hash_axioms;
        self.0.insert(k, v)
    }

    pub fn get(&self, k: &u64) -> (r: Option<&SimplifiedElement>)
        ensures
            match r {
                Some(e) => self@.contains_key(*k) && *e == self@[*k],
                None => !self@.contains_key(*k),
            },
    {
        broadcast use vstd::std_specs::hash::group_hash_axioms;
        self.0.get(k)
    }

    /// Removes the entry under `k`; an absent key is no error.
    pub fn remove(&mut self, k: &u64)
        ensures
            final(self)@ == old(self)@.remove(*k),
    {
        broadcast use vstd::std_specs::hash::group_hash_axioms;
        self.0.remove(k);
    }

    pub fn len(&self) -> (r: usize)
        ensures
            r == self@.len(),
    {
        broadcast use vstd::std_specs::hash::group_hash_axioms;
        self.0.len()
    }

    /// The entries of the store as `(id, element)` pairs, each once, in no
    /// particular order.
    pub fn into_entries(self) -> (r: Vec<(u64, SimplifiedElement)>)
        ensures
            r@.len() == self@.len(),
            r@.map_values(|p: (u64, SimplifiedElement)| p.0).no_duplicates(),
            forall|i: int|
                0 <= i < r@.len() ==> self@.contains_key(#[trigger] r@[i].0) && self@[r@[i].0]
                    == r@[i].1,
    {
        broadcast use vstd::std_specs::hash::group_hash_axioms;
        let ids = self.ids();
        let ghost start = self@;
        proof {
            ids@.unique_seq_to_set();
        }
        let mut store = self;
        let mut r: Vec<(u64, SimplifiedElement)> = Vec::new();
        let mut i: usize = 0;
        while i < ids.len()
            invariant
                i <= ids.len(),
                ids@.no_duplicates(),
                ids@.to_set() == start.dom(),
                ids@.len() == start.len(),
                r@.len() == i,
                forall|j: int| 0 <= j < i ==> #[trigger] r@[j].0 == ids@[j] && start[ids@[j]] == r@[j].1,
                forall|k: u64| #[trigger]
                    store@.contains_key(k) <==> start.contains_key(k) && !ids@.subrange(
                        0,
                        i as int,
                    ).contains(k),
                forall|k: u64| #[trigger] store@.contains_key(k) ==> store@[k] == start[k],
            decreases ids.len() - i,
        {
            let k = ids[i];
            let ghost prev = ids@.subrange(0, i as int);
            let ghost next = ids@.subrange(0, i + 1);
            assert(next =~= prev.push(k));
            assert(ids@.to_set().contains(k));
            assert(!prev.contains(k)) by {
                if prev.contains(k) {
                    let j = choose|j: int| 0 <= j < prev.len() && prev[j] == k;
                    assert(ids@[j] == ids@[i as int]);
                }
            }
            assert(store@.contains_key(k));
            let ghost before = store@;
            let v = store.0.remove(&k);
            assert(store@ == before.remove(k));
            match v {
                Some(e) => {
                    r.push((k, e));
                },
                None => {},
            }
            proof {
                lemma_push_contains(prev, k);
            }
            i = i + 1;
        }
        proof {
            let ks = r@.map_values(|p: (u64, SimplifiedElement)| p.0);
            assert(ks =~= ids@);
        }
        r
    }

    /// The ids of the store, each once, in no particular order.
    pub fn ids(&self) -> (r: Vec<u64>)
        ensures
            r@.no_duplicates(),
            r@.to_set() == self@.dom(),
    {
        keys_of(&self.0)
    }

    /// The entries of the store as `(id, element)` pairs, each id once, in no
    /// particular order. Each call gives a fresh sequence.
    pub fn iter(&self) -> (r: Vec<(u64, &SimplifiedElement)>)
        ensures
            r@.len() == self@.len(),
            r@.map_values(|p: (u64, &SimplifiedElement)| p.0).no_duplicates(),
            forall|k: u64|
                self@.contains_key(k) ==> exists|i: int| 0 <= i < r@.len() && #[trigger] r@[i].0 == k,
            forall|i: int|
                0 <= i < r@.len() ==> self@.contains_key(#[trigger] r@[i].0) && *r@[i].1
                    == self@[r@[i].0],
    {
        entries_of(&self.0)
    }

    /// Removes every entry of the given kind.
    pub fn prune(&mut self, kind: ElementKind)
        ensures
            final(self)@ == pruned(old(self)@, kind),
    {
        let ids = self.ids();
        let ghost start = self@;
        let mut i: usize = 0;
        while i < ids.len()
            invariant
                i <= ids.len(),
                ids@.to_set() == start.dom(),
                forall|k: u64| #[trigger]
                    self@.contains_key(k) <==> start.contains_key(k) && !(ids@.subrange(
                        0,
                        i as int,
                    ).contains(k) && start[k].spec_kind() == kind),
                forall|k: u64| #[trigger] self@.contains_key(k) ==> self@[k] == start[k],
            decreases ids.len() - i,
        {
            let k = ids[i];
            let ghost prev = ids@.subrange(0, i as int);
            let ghost next = ids@.subrange(0, i + 1);
            assert(next =~= prev.push(k));
            assert(ids@.to_set().contains(k));
            let matches_kind = match self.get(&k) {
                Some(e) => e.kind() == kind,
                None => false,
            };
            if matches_kind {
                self.remove(&k);
            }
            proof {
                lemma_push_contains(prev, k);
            }
            i = i + 1;
        }
        proof {
            assert(ids@.subrange(0, ids.len() as int) =~= ids@);
            assert forall|k: u64| start.contains_key(k) implies ids@.contains(k) by {
                assert(ids@.to_set().contains(k));
            }
            assert(self@ =~= pruned(start, kind));
        }
    }

    /// Removes every node entry.
    pub fn prune_nodes(&mut self)
        ensures
            final(self)@ == pruned(old(self)@, ElementKind::Node),
    {
        self.prune(ElementKind::Node)
    }

    /// Removes every way entry.
    pub fn prune_ways(&mut self)
        ensures
            final(self)@ == pruned(old(self)@, ElementKind::Way),
    {
        self.prune(ElementKind::Way)
    }
}

/// Pruning a kind a second time changes nothing.
pub proof fn lemma_prune_idempotent(m: Map<u64, SimplifiedElement>, kind: ElementKind)
    ensures
        pruned(pruned(m, kind), kind) == pruned(m, kind),
{
    assert(pruned(pruned(m, kind), kind) =~= pruned(m, kind));
}

/// Pruning two kinds in either order gives the same store: the entries of
/// neither kind.
pub proof fn lemma_prune_commutes(m: Map<u64, SimplifiedElement>, a: ElementKind, b: ElementKind)
    ensures
        pruned(pruned(m, a), b) == pruned(pruned(m, b), a),
        pruned(pruned(m, a), b) == m.restrict(
            m.dom().filter(|k: u64| m[k].spec_kind() != a && m[k].spec_kind() != b),
        ),
{
    assert(pruned(pruned(m, a), b) =~= pruned(pruned(m, b), a));
    assert(pruned(pruned(m, a), b) =~= m.restrict(
        m.dom().filter(|k: u64| m[k].spec_kind() != a && m[k].spec_kind() != b),
    ));
}

/// Resolves ids against one store, each at most once: completed results are
/// kept, and the relations being expanded are tracked to detect cycles.
pub struct Resolver {
    memo: HashMap<u64, Result<Vec<SimplifiedNode>, ResolveError>>,
    in_progress: Vec<u64>,
    expansions: usize,
}

impl Resolver {
    /// The ids whose resolution has been completed.
    pub closed spec fn expanded(&self) -> Set<u64> {
        self.memo@.dom()
    }

    pub closed spec fn spec_expansions(&self) -> nat {
        self.expansions as nat
    }

    /// The state is consistent with `store`, and no resolution is under way.
    pub closed spec fn idle(&self, store: Map<u64, Element>) -> bool {
        self.inv(store) && self.in_progress@.len() == 0
    }

    closed spec fn inv(&self, store: Map<u64, Element>) -> bool {
        let st = self.in_progress@;
        &&& self.memo@.dom().finite()
        &&& self.expansions == self.memo@.dom().len()
        &&& forall|v: u64| #[trigger] self.memo@.contains_key(v) ==> store.contains_key(v)
            && outcome_holds(store, v, self.memo@[v])
        &&& st.no_duplicates()
        &&& forall|j: int| 0 <= j < st.len() ==> store.contains_key(#[trigger] st[j])
            && store[st[j]] is Relation && !self.memo@.contains_key(st[j])
        &&& forall|j: int| 0 <= j < st.len() - 1 ==> #[trigger] refers_to(store, st[j], st[j + 1])
    }

    pub fn new() -> (r: Resolver)
        ensures
            forall|store: Map<u64, Element>| r.idle(store),
            r.expanded() == Set::<u64>::empty(),
            r.spec_expansions() == 0,
    {
        Resolver { memo: HashMap::new(), in_progress: Vec::new(), expansions: 0 }
    }

    /// How many resolutions have been computed rather than reused.
    pub fn expansions(&self) -> (r: usize)
        ensures
            r == self.spec_expansions(),
    {
        self.expansions
    }

    /// The stack of relations being expanded fits in the store.
    proof fn lemma_stack_fits(&self, store: Map<u64, Element>, id: u64)
        requires
            self.inv(store),
            store.dom().finite(),
            store.contains_key(id),
            !self.in_progress@.contains(id),
        ensures
            self.in_progress@.len() < store.len(),
    {
        let st = self.in_progress@.push(id);
        assert forall|a: u64| st.to_set().contains(a) implies store.dom().contains(a) by {
            let j = choose|j: int| 0 <= j < st.len() && st[j] == a;
            if j < st.len() - 1 {
                assert(self.in_progress@[j] == a);
            }
        }
        st.unique_seq_to_set();
        vstd::set_lib::lemma_len_subset(st.to_set(), store.dom());
    }

    /// One more completed resolution still fits in the store.
    proof fn lemma_memo_fits(&self, store: Map<u64, Element>, id: u64)
        requires
            self.inv(store),
            store.dom().finite(),
            store.contains_key(id),
            !self.memo@.contains_key(id),
        ensures
            self.memo@.dom().len() < store.len(),
    {
        vstd::set_lib::lemma_len_subset(self.memo@.dom().insert(id), store.dom());
    }

    fn resolve_id(&mut self, store: &OverpassTurbo, id: u64) -> (r: Result<
        Vec<SimplifiedNode>,
        ResolveError,
    >)
        requires
            old(self).inv(store@),
            old(self).in_progress@.len() > 0 ==> refers_to(
                store@,
                old(self).in_progress@.last(),
                id,
            ),
        ensures
            final(self).inv(store@),
            final(self).in_progress@ == old(self).in_progress@,
            old(self).memo@.dom().subset_of(final(self).memo@.dom()),
            store@.contains_key(id) && !old(self).in_progress@.contains(id)
                ==> final(self).memo@.contains_key(id),
            outcome_holds(store@, id, r),
        decreases store@.len() - old(self).in_progress@.len(), 0nat,
    {
        broadcast use vstd::std_specs::hash::group_hash_axioms;

        match self.memo.get(&id) {
            Some(res) => {
                return copy_result(res);
            },
            None => {},
        }
        let ghost st = self.in_progress@;
        match self.position_in_progress(id) {
            Some(p) => {
                let mut chain: Vec<u64> = Vec::new();
                let mut i: usize = p;
                while i < self.in_progress.len()
                    invariant
                        p <= i <= st.len(),
                        self.in_progress@ == st,
                        chain@ == st.subrange(p as int, i as int),
                    decreases st.len() - i,
                {
                    chain.push(self.in_progress[i]);
                    i = i + 1;
                    assert(chain@ =~= st.subrange(p as int, i as int));
                }
                chain.push(id);
                proof {
                    let c = chain@;
                    assert(c.len() == st.len() - p + 1);
                    assert forall|j: int| 0 <= j < c.len() - 1 implies #[trigger] refers_to(
                        store@,
                        c[j],
                        c[j + 1],
                    ) by {
                        if j < c.len() - 2 {
                            assert(refers_to(store@, st[p + j], st[p + j + 1]));
                        }
                    }
                    assert(is_cycle(store@, c));
                    if leaves_of(store@, id) is Some {
                        let f = lemma_leaves_of_fuel(store@, id);
                        lemma_cycle_unresolvable(store@, c, f);
                        assert(c[0] == id);
                    }
                    assert(c[0] == id);
                    lemma_reaches_self(store@, id);
                    assert(id_error(store@, id, ResolveError::CyclicReference(chain), 0));
                }
                return Err(ResolveError::CyclicReference(chain));
            },
            None => {},
        }
        let n = store.len();
        let r = match store.get(&id) {
            None => {
                proof {
                    lemma_reaches_self(store@, id);
                    assert(id_error(store@, id, ResolveError::MissingReference(id), 0));
                }
                return Err(ResolveError::MissingReference(id));
            },
            Some(Element::Node(node)) => {
                let mut v: Vec<SimplifiedNode> = Vec::new();
                v.push(SimplifiedNode::from(node));
                assert(v@ =~= seq![leaf_of(*node)]);
                Ok(v)
            },
            Some(Element::Way(w)) => {
                let r = resolve_way_nodes(store, &w.nodes);
                proof {
                    if r is Err {
                        lemma_way_error_from(store@, id, r->Err_0);
                        assert(id_error(store@, id, r->Err_0, 0));
                    }
                }
                r
            },
            Some(Element::Relation(rel)) => {
                proof {
                    self.lemma_stack_fits(store@, id);
                }
                self.in_progress.push(id);
                proof {
                    let s2 = self.in_progress@;
                    assert(s2.last() == id);
                    assert forall|j: int| 0 <= j < s2.len() - 1 implies #[trigger] refers_to(
                        store@,
                        s2[j],
                        s2[j + 1],
                    ) by {
                        if j < s2.len() - 2 {
                            assert(refers_to(store@, st[j], st[j + 1]));
                        }
                    }
                    assert(s2.no_duplicates()) by {
                        assert forall|a: int, b: int|
                            0 <= a < s2.len() && 0 <= b < s2.len() && a != b implies s2[a]
                            != s2[b] by {
                            if a < st.len() && b < st.len() {
                                assert(st[a] != st[b]);
                            }
                        }
                    }
                }
                let r = self.resolve_members(store, &rel.members);
                self.in_progress.pop();
                proof {
                    assert(self.in_progress@ =~= st);
                    if r is Err {
                        let e = r->Err_0;
                        let ms = rel.members@;
                        let i = choose|i: int| #[trigger] member_error_at(store@, ms, i, e);
                        assert(links(store@, id, ms[i].member_ref));
                        lemma_error_step(store@, id, ms[i].member_ref, e);
                        let f = choose|f: nat| #[trigger] members_error_upto(store@, ms, e, f);
                        assert(id_error(store@, id, e, f + 1));
                    }
                }
                r
            },
        };
        proof {
            self.lemma_memo_fits(store@, id);
        }
        let kept = copy_result(&r);
        self.memo.insert(id, kept);
        self.expansions = self.expansions + 1;
        r
    }

    fn resolve_members(&mut self, store: &OverpassTurbo, members: &Vec<RelationMember>) -> (r:
        Result<Vec<SimplifiedNode>, ResolveError>)
        requires
            old(self).inv(store@),
            old(self).in_progress@.len() > 0 ==> {
                let last = old(self).in_progress@.last();
                store@.contains_key(last) && store@[last] is Relation
                    && store@[last]->Relation_0.members@ == members@
            },
        ensures
            final(self).inv(store@),
            final(self).in_progress@ == old(self).in_progress@,
            old(self).memo@.dom().subset_of(final(self).memo@.dom()),
            result_holds(store@, relation_leaves(store@, members@), r),
            r matches Err(e) ==> members_error(store@, members@, e) && relation_error(
                store@,
                members@,
                e,
            ),
        decreases store@.len() - old(self).in_progress@.len(), 1nat,
    {
        let mut acc: Vec<SimplifiedNode> = Vec::new();
        let ghost mut fuel: nat = 0;
        let mut i: usize = 0;
        assert(members@.subrange(0, 0) =~= Seq::<RelationMember>::empty());
        while i < members.len()
            invariant
                i <= members.len(),
                self.inv(store@),
                self.in_progress@ == old(self).in_progress@,
                old(self).memo@.dom().subset_of(self.memo@.dom()),
                members_leaves(store@, members@.subrange(0, i as int), fuel) == Some(acc@),
                old(self).in_progress@.len() > 0 ==> {
                    let last = old(self).in_progress@.last();
                    store@.contains_key(last) && store@[last] is Relation
                        && store@[last]->Relation_0.members@ == members@
                },
            decreases members.len() - i,
        {
            let m = &members[i];
            proof {
                if self.in_progress@.len() > 0 {
                    assert(store@[self.in_progress@.last()]->Relation_0.members@[i as int] == *m);
                }
            }
            let res = self.resolve_id(store, m.member_ref);
            match res {
                Ok(mut v) => {
                    proof {
                        let f1 = lemma_leaves_of_fuel(store@, m.member_ref);
                        let big: nat = if f1 > fuel { f1 } else { fuel };
                        lemma_members_mono(store@, members@.subrange(0, i as int), fuel, big);
                        lemma_id_mono(store@, m.member_ref, f1, big);
                        assert(members@.subrange(0, i + 1).drop_last() =~= members@.subrange(0, i as int));
                        fuel = big;
                    }
                    acc.append(&mut v);
                },
                Err(e) => {
                    proof {
                        assert forall|f: nat| #[trigger] members_leaves(store@, members@, f) is None by {
                            if members_leaves(store@, members@, f) is Some {
                                lemma_members_each(store@, members@, f, i as int);
                                lemma_id_leaves_exact(store@, m.member_ref, f);
                            }
                        }
                        assert(members@[i as int] == *m);
                        let prefix = members@.subrange(0, i as int);
                        assert forall|j: int| 0 <= j < i implies (#[trigger] leaves_of(
                            store@,
                            members@[j].member_ref,
                        )) is Some by {
                            lemma_members_each(store@, prefix, fuel, j);
                            assert(prefix[j] == members@[j]);
                            lemma_id_leaves_exact(store@, members@[j].member_ref, fuel);
                        }
                        assert(member_error_at(store@, members@, i as int, e));
                        let f = choose|f: nat| #[trigger] id_error(store@, m.member_ref, e, f);
                        lemma_members_error_at(store@, members@, i as int, e, f);
                    }
                    return Err(e);
                },
            }
            i = i + 1;
        }
        proof {
            assert(members@.subrange(0, members.len() as int) =~= members@);
            lemma_relation_leaves_exact(store@, members@, fuel);
        }
        Ok(acc)
    }

    /// Resolves the element under `id`, reusing what earlier calls computed.
    pub fn resolve(&mut self, overpass_turbo: &OverpassTurbo, id: u64) -> (r: Result<
        Vec<SimplifiedNode>,
        ResolveError,
    >)
        requires
            old(self).idle(overpass_turbo@),
        ensures
            final(self).idle(overpass_turbo@),
            outcome_holds(overpass_turbo@, id, r),
            old(self).expanded().subset_of(final(self).expanded()),
            overpass_turbo@.contains_key(id) ==> final(self).expanded().contains(id),
            final(self).expanded().subset_of(overpass_turbo@.dom()),
            final(self).spec_expansions() == final(self).expanded().len(),
    {
        self.resolve_id(overpass_turbo, id)
    }

    /// Resolves every element of `store`. Each id is resolved at most once over
    /// the resolver's life, however many relations refer to it.
    pub fn resolve_all(&mut self, overpass_turbo: &OverpassTurbo) -> (r: (
        SimplifiedOverpassTurbo,
        Vec<ResolveFailure>,
    ))
        requires
            old(self).idle(overpass_turbo@),
        ensures
            final(self).idle(overpass_turbo@),
            resolution_holds(overpass_turbo@, r.0@, r.1@),
            final(self).expanded() == overpass_turbo@.dom(),
            final(self).spec_expansions() == overpass_turbo@.len(),
    {
        broadcast use vstd::std_specs::hash::group_hash_axioms;

        let store = overpass_turbo;
        let ids = store.ids();
        let mut out: HashMap<u64, SimplifiedElement> = HashMap::new();
        let mut failures: Vec<ResolveFailure> = Vec::new();
        let mut i: usize = 0;
        while i < ids.len()
            invariant
                i <= ids.len(),
                ids@.no_duplicates(),
                ids@.to_set() == store@.dom(),
                self.idle(store@),
                forall|j: int| 0 <= j < i ==> self.memo@.contains_key(#[trigger] ids@[j]),
                forall|k: u64| #[trigger]
                    out@.contains_key(k) <==> ids@.subrange(0, i as int).contains(k) && leaves_of(
                        store@,
                        k,
                    ) is Some,
                forall|k: u64| #[trigger]
                    out@.contains_key(k) ==> resolves_to(store@[k], leaves_of(store@, k)->0, out@[k]),
                forall|j: int|
                    0 <= j < failures@.len() ==> store@.contains_key(#[trigger] failures@[j].id)
                        && leaves_of(store@, failures@[j].id) is None && error_holds(
                        store@,
                        failures@[j].error,
                    ) && error_from(store@, failures@[j].id, failures@[j].error)
                        && error_of(store@, failures@[j].id, failures@[j].error)
                        && ids@.subrange(0, i as int).contains(failures@[j].id),
                forall|a: int, b: int|
                    0 <= a < b < failures@.len() ==> #[trigger] failures@[a].id
                        != #[trigger] failures@[b].id,
                forall|k: u64|
                    ids@.subrange(0, i as int).contains(k) && #[trigger] leaves_of(store@, k) is None
                        ==> exists|j: int| 0 <= j < failures@.len() && #[trigger] failures@[j].id == k,
            decreases ids.len() - i,
        {
            let k = ids[i];
            assert(ids@.to_set().contains(k));
            let ghost prev = ids@.subrange(0, i as int);
            let ghost old_failures = failures@;
            let ghost next = ids@.subrange(0, i + 1);
            assert(next =~= prev.push(k));
            assert(!prev.contains(k)) by {
                if prev.contains(k) {
                    let j = choose|j: int| 0 <= j < prev.len() && prev[j] == k;
                    assert(ids@[j] == ids@[i as int]);
                }
            }
            proof {
                lemma_push_contains(prev, k);
            }
            match store.get(&k) {
                Some(e) => {
                    let res = self.resolve_id(store, k);
                    match res {
                        Ok(leaves) => {
                            let s = assemble(e, leaves);
                            out.insert(k, s);
                        },
                        Err(error) => {
                            failures.push(ResolveFailure { id: k, error });
                            assert(failures@[failures@.len() - 1].id == k);
                            assert forall|a: int, b: int|
                                0 <= a < b < failures@.len() implies #[trigger] failures@[a].id
                                != #[trigger] failures@[b].id by {
                                if b == failures@.len() - 1 {
                                    assert(failures@[a] == old_failures[a]);
                                    assert(prev.contains(old_failures[a].id));
                                } else {
                                    assert(failures@[a] == old_failures[a]);
                                    assert(failures@[b] == old_failures[b]);
                                }
                            }
                        },
                    }
                },
                None => {},
            }
            proof {
                lemma_push_contains(prev, k);
                assert forall|x: u64|
                    next.contains(x) && #[trigger] leaves_of(store@, x) is None implies exists|j: int|
                        0 <= j < failures@.len() && #[trigger] failures@[j].id == x by {
                    if x != k {
                        let j = choose|j: int|
                            0 <= j < old_failures.len() && #[trigger] old_failures[j].id == x;
                        assert(failures@[j] == old_failures[j]);
                    } else {
                        assert(failures@[failures@.len() - 1].id == k);
                    }
                }
                assert forall|j: int| 0 <= j < failures@.len() implies next.contains(
                    #[trigger] failures@[j].id,
                ) by {
                    if j < old_failures.len() {
                        assert(failures@[j] == old_failures[j]);
                    }
                }
            }
            i = i + 1;
        }
        proof {
            assert(ids@.subrange(0, ids.len() as int) =~= ids@);
            assert forall|k: u64| store@.contains_key(k) implies self.memo@.contains_key(k) by {
                assert(ids@.to_set().contains(k));
                let j = choose|j: int| 0 <= j < ids@.len() && ids@[j] == k;
            }
            assert(self.memo@.dom() =~= store@.dom());
        }
        (SimplifiedOverpassTurbo(out), failures)
    }

    fn position_in_progress(&self, id: u64) -> (r: Option<usize>)
        ensures
            match r {
                Some(p) => p < self.in_progress@.len() && self.in_progress@[p as int] == id,
                None => !self.in_progress@.contains(id),
            },
    {
        let mut i: usize = 0;
        while i < self.in_progress.len()
            invariant
                i <= self.in_progress@.len(),
                forall|j: int| 0 <= j < i ==> self.in_progress@[j] != id,
            decreases self.in_progress@.len() - i,
        {
            if self.in_progress[i] == id {
                return Some(i);
            }
            i = i + 1;
        }
        None
    }
}

/// No element on a cycle resolves, at any fuel.
proof fn lemma_cycle_unresolvable(store: Map<u64, Element>, c: Seq<u64>, f: nat)
    requires
        is_cycle(store, c),
    ensures
        forall|j: int| 0 <= j < c.len() ==> id_leaves(store, #[trigger] c[j], f) is None,
    decreases f,
{
    if f > 0 {
        lemma_cycle_unresolvable(store, c, (f - 1) as nat);
    }
    assert forall|j: int| 0 <= j < c.len() implies id_leaves(store, #[trigger] c[j], f) is None by {
        let jj = if j == c.len() - 1 { 0 } else { j };
        assert(c[jj] == c[j]);
        assert(refers_to(store, c[jj], c[jj + 1]));
        let r = store[c[jj]]->Relation_0;
        if f > 0 && members_leaves(store, r.members@, (f - 1) as nat) is Some {
            let i = choose|i: int|
                0 <= i < r.members@.len() && (#[trigger] r.members@[i]).member_ref == c[jj + 1];
            lemma_members_each(store, r.members@, (f - 1) as nat, i);
        }
    }
}

} // verus!
