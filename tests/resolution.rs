use overpass_turbo::model::{
    Element, LoadError, Node, OpenStreetMap, OverpassTurbo, OverpassTurboFile, Relation, RelationMember, Way,
};
use overpass_turbo::simplified::{
    ElementKind, ResolveError, Resolver, SimplifiedElement, SimplifiedNode,
    SimplifiedOverpassTurbo, SimplifiedRelation, SimplifiedWay,
};

fn node(id: u64, lat: f64, lon: f64) -> Element {
    Element::Node(Node { id, lat: lat.to_bits(), lon: lon.to_bits(), tags: None })
}

fn way(id: u64, nodes: Vec<u64>) -> Element {
    Element::Way(Way { id, nodes })
}

fn member(kind: &str, r: u64, role: &str) -> RelationMember {
    RelationMember { member_type: kind.to_string(), member_ref: r, role: role.to_string() }
}

fn relation(id: u64, members: Vec<RelationMember>) -> Element {
    Element::Relation(Relation { id, members, tags: None })
}

fn store(elements: Vec<Element>) -> OverpassTurbo {
    let mut s = OverpassTurbo::new();
    for e in elements {
        s.insert(e.id(), e);
    }
    s
}

fn coords(leaves: &[SimplifiedNode]) -> Vec<(u64, f64, f64)> {
    leaves.iter().map(|n| (n.id, f64::from_bits(n.lat), f64::from_bits(n.lon))).collect()
}

fn base() -> OverpassTurbo {
    store(vec![node(1, 48.1, 11.5), node(2, 48.2, 11.6), way(10, vec![1, 2])])
}

#[test]
fn way_resolves_nodes_in_order() {
    let s = base();
    let w = Way { id: 10, nodes: vec![1, 2] };
    let r = SimplifiedWay::from(&w, &s).ok().unwrap();
    assert_eq!(r.id, 10);
    assert_eq!(coords(&r.nodes), vec![(1, 48.1, 11.5), (2, 48.2, 11.6)]);
}

#[test]
fn way_keeps_duplicate_nodes() {
    let s = base();
    let w = Way { id: 11, nodes: vec![2, 1, 2] };
    let r = SimplifiedWay::from(&w, &s).ok().unwrap();
    assert_eq!(coords(&r.nodes), vec![(2, 48.2, 11.6), (1, 48.1, 11.5), (2, 48.2, 11.6)]);
}

#[test]
fn empty_way_resolves_to_no_nodes() {
    let s = base();
    let r = SimplifiedWay::from(&Way { id: 12, nodes: vec![] }, &s).ok().unwrap();
    assert!(r.nodes.is_empty());
}

#[test]
fn relation_flattens_in_member_order_and_drops_roles() {
    let s = base();
    let rel = Relation {
        id: 20,
        members: vec![member("way", 10, "outer"), member("node", 1, "stop")],
        tags: None,
    };
    let r = SimplifiedRelation::from(&rel, &s).ok().unwrap();
    assert_eq!(r.id, 20);
    assert_eq!(coords(&r.members), vec![(1, 48.1, 11.5), (2, 48.2, 11.6), (1, 48.1, 11.5)]);
}

#[test]
fn nested_relation_is_spliced_flat() {
    let mut s = base();
    s.insert(20, relation(20, vec![member("way", 10, "outer"), member("node", 1, "stop")]));
    s.insert(30, relation(30, vec![member("node", 2, ""), member("relation", 20, "")]));
    let mut resolver = Resolver::new();
    let leaves = resolver.resolve(&s, 30).ok().unwrap();
    assert_eq!(
        coords(&leaves),
        vec![(2, 48.2, 11.6), (1, 48.1, 11.5), (2, 48.2, 11.6), (1, 48.1, 11.5)]
    );
}

#[test]
fn missing_node_fails_way_only() {
    let mut s = base();
    s.insert(11, way(11, vec![1, 99]));
    let r = SimplifiedWay::from(&Way { id: 11, nodes: vec![1, 99] }, &s);
    assert!(matches!(r, Err(ResolveError::MissingReference(99))));
    let (out, failures, _) = SimplifiedOverpassTurbo::from_struct(s);
    assert_eq!(failures.len(), 1);
    assert_eq!(failures[0].id, 11);
    assert!(matches!(failures[0].error, ResolveError::MissingReference(99)));
    assert!(out.get(&11).is_none());
    assert!(out.get(&10).is_some());
    assert!(out.get(&1).is_some());
    assert_eq!(out.len(), 3);
}

#[test]
fn way_naming_a_way_is_a_kind_mismatch() {
    let s = base();
    let r = SimplifiedWay::from(&Way { id: 11, nodes: vec![1, 10] }, &s);
    assert!(matches!(r, Err(ResolveError::ReferenceKindMismatch(10))));
}

#[test]
fn relation_with_missing_member_fails() {
    let s = base();
    let rel = Relation { id: 20, members: vec![member("way", 77, "")], tags: None };
    let r = SimplifiedRelation::from(&rel, &s);
    assert!(matches!(r, Err(ResolveError::MissingReference(77))));
}

#[test]
fn self_reference_is_a_cycle() {
    let mut s = base();
    s.insert(40, relation(40, vec![member("node", 1, ""), member("relation", 40, "")]));
    let mut resolver = Resolver::new();
    match resolver.resolve(&s, 40) {
        Err(ResolveError::CyclicReference(c)) => assert_eq!(c, vec![40, 40]),
        _ => panic!("expected a cycle"),
    }
}

#[test]
fn two_relation_cycle_fails_both() {
    let mut s = base();
    s.insert(50, relation(50, vec![member("relation", 51, "")]));
    s.insert(51, relation(51, vec![member("way", 10, ""), member("relation", 50, "")]));
    let mut resolver = Resolver::new();
    match resolver.resolve(&s, 50) {
        Err(ResolveError::CyclicReference(c)) => assert_eq!(c, vec![50, 51, 50]),
        _ => panic!("expected a cycle"),
    }
    let (out, failures, _) = SimplifiedOverpassTurbo::from_struct(s);
    let mut failed: Vec<u64> = failures.iter().map(|f| f.id).collect();
    failed.sort();
    assert_eq!(failed, vec![50, 51]);
    assert_eq!(out.len(), 3);
}

#[test]
fn shared_way_is_resolved_once() {
    let mut s = base();
    s.insert(60, relation(60, vec![member("way", 10, "")]));
    for i in 0..5u64 {
        s.insert(70 + i, relation(70 + i, vec![member("relation", 60, "")]));
    }
    let mut resolver = Resolver::new();
    for i in 0..5u64 {
        let leaves = resolver.resolve(&s, 70 + i).ok().unwrap();
        assert_eq!(coords(&leaves), vec![(1, 48.1, 11.5), (2, 48.2, 11.6)]);
    }
    // 5 parents, the shared relation 60 and its way 10: seven computations
    assert_eq!(resolver.expansions(), 7);
    let (out, failures) = resolver.resolve_all(&s);
    assert!(failures.is_empty());
    assert_eq!(out.len(), 9);
    // every id of the store computed exactly once in all
    assert_eq!(resolver.expansions(), 9);
}

#[test]
fn element_from_keeps_node_and_tags() {
    let s = base();
    let tags = serde_json::Value::String("tram".to_string());
    let e = Element::Node(Node { id: 5, lat: 1.5f64.to_bits(), lon: 2.5f64.to_bits(), tags: Some(tags.clone()) });
    match SimplifiedElement::from(&e, &s).ok().unwrap() {
        SimplifiedElement::Node(n) => {
            assert_eq!(n.id, 5);
            assert_eq!(f64::from_bits(n.lat), 1.5);
            assert_eq!(f64::from_bits(n.lon), 2.5);
            assert_eq!(n.tags, Some(tags));
        }
        _ => panic!("expected a node"),
    }
    let rel = Element::Relation(Relation {
        id: 20,
        members: vec![member("way", 10, "")],
        tags: Some(serde_json::Value::Bool(true)),
    });
    match SimplifiedElement::from(&rel, &s).ok().unwrap() {
        SimplifiedElement::Relation(r) => {
            assert_eq!(r.tags, Some(serde_json::Value::Bool(true)));
            assert_eq!(r.members.len(), 2);
        }
        _ => panic!("expected a relation"),
    }
}

fn resolved() -> SimplifiedOverpassTurbo {
    let mut s = base();
    s.insert(20, relation(20, vec![member("way", 10, "outer"), member("node", 1, "stop")]));
    let (out, failures, _) = SimplifiedOverpassTurbo::from_struct(s);
    assert!(failures.is_empty());
    out
}

fn sorted_ids(s: &SimplifiedOverpassTurbo) -> Vec<u64> {
    let mut ids = s.ids();
    ids.sort();
    ids
}

#[test]
fn prune_nodes_then_ways_leaves_relations() {
    let mut a = resolved();
    assert_eq!(sorted_ids(&a), vec![1, 2, 10, 20]);
    a.prune_nodes();
    assert_eq!(sorted_ids(&a), vec![10, 20]);
    a.prune_ways();
    assert_eq!(sorted_ids(&a), vec![20]);
    assert_eq!(a.get(&20).unwrap().kind(), ElementKind::Relation);
}

#[test]
fn prune_order_does_not_matter() {
    let mut a = resolved();
    a.prune_nodes();
    a.prune_ways();
    let mut b = resolved();
    b.prune_ways();
    b.prune_nodes();
    assert_eq!(sorted_ids(&a), sorted_ids(&b));
}

#[test]
fn prune_twice_is_prune_once() {
    let mut a = resolved();
    a.prune(ElementKind::Node);
    let once = sorted_ids(&a);
    a.prune(ElementKind::Node);
    assert_eq!(sorted_ids(&a), once);
    assert_eq!(once, vec![10, 20]);
}

#[test]
fn remove_absent_key_is_no_error() {
    let mut a = resolved();
    a.remove(&12345);
    assert_eq!(a.len(), 4);
}

#[test]
fn later_element_replaces_earlier_of_same_id() {
    let file = OverpassTurboFile {
        version: 0.6f32.to_bits(),
        generator: "Overpass API".to_string(),
        osm3s: OpenStreetMap {
            timestamp_osm_base: "2024-01-01T00:00:00Z".to_string(),
            copyright: "ODbL".to_string(),
        },
        elements: vec![node(1, 1.0, 1.0), node(2, 2.0, 2.0), way(3, vec![2]), node(1, 5.0, 6.0)],
    };
    let s = OverpassTurbo::from_file(file).ok().unwrap();
    assert_eq!(s.len(), 3);
    match s.get(&1) {
        Some(Element::Node(n)) => assert_eq!(f64::from_bits(n.lat), 5.0),
        _ => panic!("expected node 1"),
    }
    let mut ids = s.ids();
    ids.sort();
    assert_eq!(ids, vec![1, 2, 3]);
}

fn header() -> OpenStreetMap {
    OpenStreetMap { timestamp_osm_base: String::new(), copyright: String::new() }
}

#[test]
fn shared_id_across_kinds_is_a_load_error() {
    let file = OverpassTurboFile {
        version: 0.6f32.to_bits(),
        generator: String::new(),
        osm3s: header(),
        elements: vec![node(7, 1.0, 1.0), node(2, 2.0, 2.0), way(7, vec![2])],
    };
    assert!(matches!(OverpassTurbo::from_file(file), Err(LoadError::KindCollision(7))));
    let file = OverpassTurboFile {
        version: 0.6f32.to_bits(),
        generator: String::new(),
        osm3s: header(),
        elements: vec![way(7, vec![]), node(7, 1.0, 1.0), node(7, 1.0, 1.0)],
    };
    assert!(matches!(SimplifiedOverpassTurbo::from_file(file), Err(LoadError::KindCollision(7))));
}

#[test]
fn resolve_a_whole_file() {
    let file = OverpassTurboFile {
        version: 0.6f32.to_bits(),
        generator: "Overpass API".to_string(),
        osm3s: OpenStreetMap { timestamp_osm_base: String::new(), copyright: String::new() },
        elements: vec![
            node(1, 1.0, 2.0),
            node(2, 3.0, 4.0),
            way(10, vec![1, 2]),
            relation(20, vec![member("way", 10, ""), member("node", 2, "")]),
        ],
    };
    let (mut out, failures, count) = SimplifiedOverpassTurbo::from_file(file).ok().unwrap();
    assert_eq!(count, 4);
    assert!(failures.is_empty());
    out.prune_nodes();
    out.prune_ways();
    match out.get(&20) {
        Some(SimplifiedElement::Relation(r)) => {
            assert_eq!(coords(&r.members), vec![(1, 1.0, 2.0), (2, 3.0, 4.0), (2, 3.0, 4.0)])
        }
        _ => panic!("expected relation 20"),
    }
}

#[test]
fn empty_store_resolves_to_empty() {
    let (out, failures, count) = SimplifiedOverpassTurbo::from_struct(OverpassTurbo::empty());
    assert_eq!(count, 0);
    assert_eq!(out.len(), 0);
    assert!(failures.is_empty());
}

#[test]
fn iter_yields_each_entry_once_and_restarts() {
    let s = base();
    let mut first: Vec<u64> = s.iter().iter().map(|(k, e)| {
        assert_eq!(*k, e.id());
        *k
    }).collect();
    first.sort();
    assert_eq!(first, vec![1, 2, 10]);
    let mut second: Vec<u64> = s.iter().iter().map(|(k, _)| *k).collect();
    second.sort();
    assert_eq!(first, second);
}

#[test]
fn resolved_store_entries() {
    let mut a = resolved();
    a.prune_nodes();
    assert_eq!(a.iter().len(), 2);
    let mut entries = a.into_entries();
    entries.sort_by_key(|p| p.0);
    assert_eq!(entries.len(), 2);
    assert_eq!(entries[0].0, 10);
    assert_eq!(entries[0].1.kind(), ElementKind::Way);
    assert_eq!(entries[1].1.id(), 20);
}

#[test]
fn way_reports_first_bad_id_in_order() {
    let s = base();
    let r = SimplifiedWay::from(&Way { id: 11, nodes: vec![1, 99, 10] }, &s);
    assert!(matches!(r, Err(ResolveError::MissingReference(99))));
    let r = SimplifiedWay::from(&Way { id: 11, nodes: vec![1, 10, 99] }, &s);
    assert!(matches!(r, Err(ResolveError::ReferenceKindMismatch(10))));
}

#[test]
fn relation_passes_on_member_error() {
    let mut s = base();
    s.insert(11, way(11, vec![2, 98]));
    let rel = Relation {
        id: 20,
        members: vec![member("node", 1, ""), member("way", 11, ""), member("way", 10, "")],
        tags: None,
    };
    assert!(matches!(SimplifiedRelation::from(&rel, &s), Err(ResolveError::MissingReference(98))));
    let e = SimplifiedElement::from(&Element::Relation(rel), &s);
    assert!(matches!(e, Err(ResolveError::MissingReference(98))));
}

#[test]
fn whole_pass_counts_each_id_once() {
    let mut s = base();
    s.insert(60, relation(60, vec![member("way", 10, "")]));
    for i in 0..4u64 {
        s.insert(70 + i, relation(70 + i, vec![member("relation", 60, ""), member("node", 2, "")]));
    }
    let (out, failures, count) = SimplifiedOverpassTurbo::from_struct(s);
    assert!(failures.is_empty());
    assert_eq!(count, 8);
    assert_eq!(out.len(), 8);
    match out.get(&73) {
        Some(SimplifiedElement::Relation(r)) => {
            assert_eq!(coords(&r.members), vec![(1, 48.1, 11.5), (2, 48.2, 11.6), (2, 48.2, 11.6)])
        }
        _ => panic!("expected relation 73"),
    }
}

#[test]
fn exact_store_with_one_broken_way() {
    let s = store(vec![node(1, 1.5, 2.5), way(10, vec![1, 99]), way(11, vec![1])]);
    let (out, failures, _) = SimplifiedOverpassTurbo::from_struct(s);
    assert_eq!(failures.len(), 1);
    assert_eq!(failures[0].id, 10);
    assert!(matches!(failures[0].error, ResolveError::MissingReference(99)));
    assert!(out.get(&10).is_none());
    match out.get(&11) {
        Some(SimplifiedElement::Way(w)) => assert_eq!(coords(&w.nodes), vec![(1, 1.5, 2.5)]),
        _ => panic!("expected way 11"),
    }
    assert!(matches!(out.get(&1), Some(SimplifiedElement::Node(_))));
}

#[test]
fn relation_reports_member_own_first_error() {
    let mut s = base();
    s.insert(80, relation(80, vec![member("node", 77, ""), member("node", 78, "")]));
    let rel = Relation { id: 81, members: vec![member("relation", 80, "")], tags: None };
    assert!(matches!(SimplifiedRelation::from(&rel, &s), Err(ResolveError::MissingReference(77))));
    let mut resolver = Resolver::new();
    assert!(matches!(resolver.resolve(&s, 80), Err(ResolveError::MissingReference(77))));
}
