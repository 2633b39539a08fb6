use codesift::types::{Relationship, SymbolId};
use codesift::ReferenceIndex;

fn id(n: u64) -> SymbolId {
    SymbolId::new(n)
}

#[test]
fn call_edge_is_seen_both_ways_on_values() {
    let mut graph = ReferenceIndex::new();
    graph.add_reference(id(1), id(2), Relationship::Calls);
    assert_eq!(graph.get_callees(id(1)).to_vec(), vec![id(2)]);
    assert_eq!(graph.get_callers(id(2)).to_vec(), vec![id(1)]);
    assert_eq!(graph.get_outgoing(id(1)).to_vec(), vec![(id(2), Relationship::Calls)]);
    assert_eq!(graph.get_incoming(id(2)).to_vec(), vec![(id(1), Relationship::Calls)]);
    assert!(graph.get_callers(id(1)).is_empty());
}

#[test]
fn other_relationships_are_not_calls() {
    let mut graph = ReferenceIndex::new();
    graph.add_reference(id(1), id(2), Relationship::References);
    assert!(graph.get_callees(id(1)).is_empty());
    assert!(graph.get_callers(id(2)).is_empty());
    assert_eq!(graph.get_outgoing(id(1)).to_vec(), vec![(id(2), Relationship::References)]);
    assert_eq!(graph.get_incoming(id(2)).to_vec(), vec![(id(1), Relationship::References)]);
}

#[test]
fn traversal_finds_every_callee_within_the_depth() {
    // a -> b -> c -> d
    let mut graph = ReferenceIndex::new();
    graph.add_reference(id(0), id(1), Relationship::Calls);
    graph.add_reference(id(1), id(2), Relationship::Calls);
    graph.add_reference(id(2), id(3), Relationship::Calls);
    assert_eq!(graph.traverse_callees(id(0), 2), vec![(id(1), 1), (id(2), 2)]);
    assert_eq!(graph.traverse_callees(id(0), 5), vec![(id(1), 1), (id(2), 2), (id(3), 3)]);
    assert_eq!(graph.traverse_callers(id(3), 1), vec![(id(2), 1)]);
    assert!(graph.traverse_callees(id(0), 0).is_empty());
}

#[test]
fn traversal_reports_a_shorter_chain_again() {
    // a -> b, a -> c, b -> c: c is first found at depth 2, then at depth 1.
    let mut graph = ReferenceIndex::new();
    graph.add_reference(id(0), id(1), Relationship::Calls);
    graph.add_reference(id(0), id(2), Relationship::Calls);
    graph.add_reference(id(1), id(2), Relationship::Calls);
    assert_eq!(graph.traverse_callees(id(0), 3), vec![(id(1), 1), (id(2), 2), (id(2), 1)]);
}

#[test]
fn traversal_stops_on_cycles() {
    let mut graph = ReferenceIndex::new();
    graph.add_reference(id(0), id(1), Relationship::Calls);
    graph.add_reference(id(1), id(0), Relationship::Calls);
    assert_eq!(graph.traverse_callees(id(0), 10), vec![(id(1), 1), (id(0), 2)]);
}
