//! Raw entities of an Overpass Turbo export and the store that indexes them.
//!
//! Coordinates are held as the IEEE-754 bit patterns of the `f64` degrees, so
//! that they travel through the library exactly as they were read.
use std::collections::HashMap;
use vstd::prelude::*;
use vstd::std_specs::iter::IteratorSpec;

verus! {

#[verifier::external_type_specification]
#[verifier::external_body]
pub struct ExValue(serde_json::Value);

/// Relies on the derived `Clone` of `serde_json::Value`: the copy equals the original.
pub assume_specification[ <serde_json::Value as Clone>::clone ](v: &serde_json::Value) -> (r:
    serde_json::Value)
    ensures
        r == *v,
;

/// Copies an optional tag document.
pub fn copy_tags(t: &Option<serde_json::Value>) -> (r: Option<serde_json::Value>)
    ensures
        r == *t,
{
    match t {
        Some(v) => Some(v.clone()),
        None => None,
    }
}

/// Meta information of an export.
pub struct OpenStreetMap {
    pub timestamp_osm_base: String,
    pub copyright: String,
}

/// A point on the map with optional tags.
pub struct Node {
    pub id: u64,
    /// Bit pattern of the latitude in degrees.
    pub lat: u64,
    /// Bit pattern of the longitude in degrees.
    pub lon: u64,
    pub tags: Option<serde_json::Value>,
}

/// A composite of references to other elements.
pub struct Relation {
    pub id: u64,
    pub members: Vec<RelationMember>,
    pub tags: Option<serde_json::Value>,
}

/// One reference of a relation: the declared kind, the referenced id and a role.
pub struct RelationMember {
    pub member_type: String,
    pub member_ref: u64,
    pub role: String,
}

/// A path given by the ids of its nodes.
pub struct Way {
    pub id: u64,
    pub nodes: Vec<u64>,
}

/// Any element of an export.
pub enum Element {
    Node(Node),
    Relation(Relation),
    Way(Way),
}

impl Element {
    pub fn same_kind_as(&self, other: &Element) -> (r: bool)
        ensures
            r == same_kind(*self, *other),
    {
        match (self, other) {
            (Element::Node(_), Element::Node(_)) => true,
            (Element::Way(_), Element::Way(_)) => true,
            (Element::Relation(_), Element::Relation(_)) => true,
            _ => false,
        }
    }

    pub open spec fn spec_id(&self) -> u64 {
        match self {
            Element::Node(n) => n.id,
            Element::Way(w) => w.id,
            Element::Relation(r) => r.id,
        }
    }

    pub fn id(&self) -> (r: u64)
        ensures
            r == self.spec_id(),
    {
        match self {
            Element::Node(node) => node.id,
            Element::Way(way) => way.id,
            Element::Relation(relation) => relation.id,
        }
    }
}

/// A whole export: header fields and its elements in file order.
pub struct OverpassTurboFile {
    /// Bit pattern of the `f32` format version.
    pub version: u32,
    pub generator: String,
    pub osm3s: OpenStreetMap,
    pub elements: Vec<Element>,
}

/// The two elements are of the same kind.
pub open spec fn same_kind(a: Element, b: Element) -> bool {
    ||| (a is Node && b is Node)
    ||| (a is Way && b is Way)
    ||| (a is Relation && b is Relation)
}

/// Two elements of different kinds share the id `x`.
pub open spec fn clash_at(elements: Seq<Element>, x: u64) -> bool {
    exists|i: int, j: int|
        #![trigger elements[i], elements[j]]
        0 <= i < elements.len() && 0 <= j < elements.len() && elements[i].spec_id() == x
            && elements[j].spec_id() == x && !same_kind(elements[i], elements[j])
}

/// Some id is shared by elements of different kinds.
pub open spec fn kinds_clash(elements: Seq<Element>) -> bool {
    exists|x: u64| #[trigger] clash_at(elements, x)
}

/// Why an export could not be indexed.
pub enum LoadError {
    /// Elements of different kinds share this id.
    KindCollision(u64),
}

/// The map that a sequence of elements gives when each is inserted under its id
/// in order. Where no id is shared across kinds (see `kinds_clash`), a later
/// element only replaces an earlier one of the same kind.
pub open spec fn store_of(elements: Seq<Element>) -> Map<u64, Element>
    decreases elements.len(),
{
    if elements.len() == 0 {
        Map::empty()
    } else {
        let last = elements.last();
        store_of(elements.drop_last()).insert(last.spec_id(), last)
    }
}

/// Every id in the map of a sequence is the id of one of its elements, and
/// maps to an element of it.
pub proof fn lemma_store_of_has(elements: Seq<Element>, x: u64)
    requires
        store_of(elements).contains_key(x),
    ensures
        exists|j: int| 0 <= j < elements.len() && (#[trigger] elements[j]).spec_id() == x,
    decreases elements.len(),
{
    if elements.last().spec_id() != x {
        lemma_store_of_has(elements.drop_last(), x);
        let j = choose|j: int|
            0 <= j < elements.drop_last().len() && (#[trigger] elements.drop_last()[j]).spec_id() == x;
        assert(elements.drop_last()[j] == elements[j]);
    } else {
        assert(elements[elements.len() - 1].spec_id() == x);
    }
}

/// The keys of a map, each once, in no particular order.
pub(crate) fn keys_of<V>(m: &HashMap<u64, V>) -> (r: Vec<u64>)
    ensures
        r@.no_duplicates(),
        r@.to_set() == m@.dom(),
{
    broadcast use vstd::std_specs::hash::group_hash_axioms;
    let ghost keys = vstd::std_specs::hash::spec_keys_iter(m).remaining().unref();
    let mut r: Vec<u64> = Vec::new();
    for k in it: m.keys()
        invariant
            it.seq().unref() == keys,
            r@ == keys.subrange(0, it.index() as int),
    {
        r.push(*k);
        assert(r@ =~= keys.subrange(0, it.index() + 1));
    }
    assert(r@ =~= keys);
    r
}

/// The entries of a map as `(key, value)` pairs, each key once, in no
/// particular order.
pub(crate) fn entries_of<V>(m: &HashMap<u64, V>) -> (r: Vec<(u64, &V)>)
    ensures
        r@.len() == m@.len(),
        r@.map_values(|p: (u64, &V)| p.0).no_duplicates(),
        forall|k: u64|
            m@.contains_key(k) ==> exists|i: int| 0 <= i < r@.len() && #[trigger] r@[i].0 == k,
        forall|i: int|
            0 <= i < r@.len() ==> m@.contains_key(#[trigger] r@[i].0) && *r@[i].1 == m@[r@[i].0],
{
    broadcast use vstd::std_specs::hash::group_hash_axioms;
    let ids = keys_of(m);
    proof {
        ids@.unique_seq_to_set();
    }
    let mut r: Vec<(u64, &V)> = Vec::new();
    let mut i: usize = 0;
    while i < ids.len()
        invariant
            i <= ids.len(),
            ids@.to_set() == m@.dom(),
            r@.len() == i,
            forall|j: int|
                0 <= j < i ==> #[trigger] r@[j].0 == ids@[j] && m@.contains_key(ids@[j]) && *r@[j].1
                    == m@[ids@[j]],
        decreases ids.len() - i,
    {
        let k = ids[i];
        assert(ids@.to_set().contains(k));
        match m.get(&k) {
            Some(e) => {
                r.push((k, e));
            },
            None => {},
        }
        i = i + 1;
    }
    proof {
        let ks = r@.map_values(|p: (u64, &V)| p.0);
        assert(ks =~= ids@);
        assert forall|k: u64| m@.contains_key(k) implies exists|i: int|
            0 <= i < r@.len() && #[trigger] r@[i].0 == k by {
            assert(ids@.to_set().contains(k));
            let j = choose|j: int| 0 <= j < ids@.len() && ids@[j] == k;
            assert(r@[j].0 == k);
        }
    }
    r
}

/// The elements of an export indexed by id.
pub struct OverpassTurbo(HashMap<u64, Element>);

impl View for OverpassTurbo {
    type V = Map<u64, Element>;

    closed spec fn view(&self) -> Map<u64, Element> {
        self.0@
    }
}

impl OverpassTurbo {
    pub fn new() -> (r: OverpassTurbo)
        ensures
            r@ == Map::<u64, Element>::empty(),
    {
        OverpassTurbo(HashMap::new())
    }

    pub fn empty() -> (r: OverpassTurbo)
        ensures
            r@ == Map::<u64, Element>::empty(),
    {
        OverpassTurbo::new()
    }

    /// Indexes the elements of an export by id. Fails, naming the id, where
    /// elements of different kinds share an id; otherwise a later element
    /// replaces an earlier one of the same kind and id.
    pub fn from_file(file: OverpassTurboFile) -> (r: Result<OverpassTurbo, LoadError>)
        ensures
            match r {
                Ok(s) => !kinds_clash(file.elements@) && s@ == store_of(file.elements@),
                Err(LoadError::KindCollision(x)) => clash_at(file.elements@, x),
            },
    {
        let mut store = OverpassTurbo::new();
        let mut elements = file.elements;
        let ghost all = elements@;
        assert(all == file.elements@);
        let mut rest: Vec<Element> = Vec::new();
        // take the elements from the back, then insert them front to back
        while elements.len() > 0
            invariant
                all == elements@ + rest@.reverse(),
            decreases elements.len(),
        {
            let e = elements.pop().unwrap();
            rest.push(e);
            assert(all =~= elements@ + rest@.reverse());
        }
        assert(all =~= rest@.reverse());
        assert(all.subrange(0, 0) =~= Seq::<Element>::empty());
        while rest.len() > 0
            invariant
                all == file.elements@,
                rest@.len() <= all.len(),
                forall|i: int| 0 <= i < rest@.len() ==> rest@[i] == all[all.len() - 1 - i],
                store@ == store_of(all.subrange(0, all.len() - rest@.len())),
                forall|j: int|
                    0 <= j < all.len() - rest@.len() ==> store@.contains_key(
                        (#[trigger] all[j]).spec_id(),
                    ) && same_kind(store@[all[j].spec_id()], all[j]),
                forall|i: int, j: int|
                    #![trigger all[i], all[j]]
                    0 <= i < all.len() - rest@.len() && 0 <= j < all.len() - rest@.len()
                        && all[i].spec_id() == all[j].spec_id() ==> same_kind(all[i], all[j]),
            decreases rest.len(),
        {
            let ghost k = all.len() - rest@.len();
            let e = rest.pop().unwrap();
            assert(all.subrange(0, k + 1).drop_last() =~= all.subrange(0, k));
            assert(all[k] == e);
            let id = e.id();
            match store.get(&id) {
                Some(old) => {
                    if !old.same_kind_as(&e) {
                        proof {
                            lemma_store_of_has(all.subrange(0, k), id);
                            let j = choose|j: int|
                                0 <= j < k && (#[trigger] all.subrange(0, k)[j]).spec_id() == id;
                            assert(all.subrange(0, k)[j] == all[j]);
                            assert(clash_at(all, id)) by {
                                assert(all[j].spec_id() == id && all[k].spec_id() == id);
                                assert(!same_kind(all[j], all[k]));
                            }
                        }
                        return Err(LoadError::KindCollision(id));
                    }
                },
                None => {},
            }
            store.insert(id, e);
            assert(all.subrange(0, all.len() - rest@.len()) =~= all.subrange(0, k + 1));
        }
        assert(all.subrange(0, all.len() as int) =~= all);
        assert(!kinds_clash(all)) by {
            if kinds_clash(all) {
                let x = choose|x: u64| #[trigger] clash_at(all, x);
                let (i, j) = choose|i: int, j: int|
                    #![trigger all[i], all[j]]
                    0 <= i < all.len() && 0 <= j < all.len() && all[i].spec_id() == x
                        && all[j].spec_id() == x && !same_kind(all[i], all[j]);
            }
        }
        Ok(store)
    }

    pub fn insert(&mut self, k: u64, v: Element) -> (r: Option<Element>)
        ensures
            final(self)@ == old(self)@.insert(k, v),
            r == old(self)@.get(k),
    {
        broadcast use vstd::std_specs::hash::group_hash_axioms;
        self.0.insert(k, v)
    }

    pub fn get(&self, k: &u64) -> (r: Option<&Element>)
        ensures
            match r {
                Some(e) => self@.contains_key(*k) && *e == self@[*k],
                None => !self@.contains_key(*k),
            },
    {
        broadcast use vstd::std_specs::hash::group_hash_axioms;
        self.0.get(k)
    }

    /// The ids of the store, each once, in no particular order.
    pub fn ids(&self) -> (r: Vec<u64>)
        ensures
            r@.no_duplicates(),
            r@.to_set() == self@.dom(),
    {
        keys_of(&self.0)
    }

    /// The entries of the store as `(id, element)` pairs, each id once, in no
    /// particular order. Each call gives a fresh sequence.
    pub fn iter(&self) -> (r: Vec<(u64, &Element)>)
        ensures
            r@.len() == self@.len(),
            r@.map_values(|p: (u64, &Element)| p.0).no_duplicates(),
            forall|k: u64|
                self@.contains_key(k) ==> exists|i: int| 0 <= i < r@.len() && #[trigger] r@[i].0 == k,
            forall|i: int|
                0 <= i < r@.len() ==> self@.contains_key(#[trigger] r@[i].0) && *r@[i].1
                    == self@[r@[i].0],
    {
        entries_of(&self.0)
    }

    pub fn len(&self) -> (r: usize)
        ensures
            r == self@.len(),
            self@.dom().finite(),
    {
        broadcast use vstd::std_specs::hash::group_hash_axioms;
        self.0.len()
    }
}

} // verus!
