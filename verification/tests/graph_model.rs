use contact_relay::entity::{Location, Person};
use contact_relay::graph::{holds, ContactGraph, GraphError};

fn someone(id: u128) -> Person {
    Person { id, home: Location { x: 1, y: 2 }, has_car: false, has_net_now: false }
}

fn graph_of(nodes: u128) -> ContactGraph {
    let mut graph = ContactGraph::new();
    for id in 0..nodes {
        assert_eq!(graph.add_node(someone(id)), Some(id as u32));
    }
    graph
}

#[test]
fn new_graph_is_empty() {
    let graph = ContactGraph::new();
    assert_eq!(graph.node_count(), 0);
    assert_eq!(graph.edge_count(), 0);
    assert_eq!(graph.link_list(), vec![]);
    assert_eq!(graph.hops(0), vec![]);
    assert_eq!(graph.neighbors(0), vec![]);
    assert_eq!(graph.person(0), None);
}

#[test]
fn handles_count_up_from_zero_and_keep_their_person() {
    let mut graph = ContactGraph::new();
    let a = graph.add_node(someone(70)).unwrap();
    let b = graph.add_node(someone(71)).unwrap();
    let c = graph.add_node(someone(72)).unwrap();
    assert_eq!((a, b, c), (0, 1, 2));
    assert_eq!(graph.node_count(), 3);
    assert_eq!(graph.person(a), Some(someone(70)));
    assert_eq!(graph.person(c), Some(someone(72)));
    assert_eq!(graph.person(3), None);
    assert_eq!(graph.edge_count(), 0);
}

#[test]
fn parallel_links_are_kept_in_insertion_order() {
    let mut graph = graph_of(3);
    assert_eq!(graph.add_edge(0, 1, 5), Ok(()));
    assert_eq!(graph.add_edge(1, 0, 6), Ok(()));
    assert_eq!(graph.add_edge(0, 1, 7), Ok(()));
    assert_eq!(graph.edge_count(), 3);
    assert_eq!(graph.link_list(), vec![(0, 1, 5), (1, 0, 6), (0, 1, 7)]);
    assert_eq!(graph.node_count(), 3);
}

#[test]
fn hops_list_outgoing_then_incoming_newest_first() {
    let mut graph = graph_of(3);
    graph.add_edge(0, 1, 5).unwrap();
    graph.add_edge(1, 0, 6).unwrap();
    graph.add_edge(0, 1, 7).unwrap();
    assert_eq!(graph.hops(0), vec![(1, 7), (1, 5), (1, 6)]);
    assert_eq!(graph.hops(1), vec![(0, 6), (0, 7), (0, 5)]);
    assert_eq!(graph.hops(2), vec![]);
    assert_eq!(graph.neighbors(0), vec![1, 1, 1]);
    assert_eq!(graph.neighbors(1), vec![0, 0, 0]);
    assert_eq!(graph.neighbors(2), vec![]);
}

#[test]
fn self_loop_is_listed_once() {
    let mut graph = graph_of(3);
    graph.add_edge(1, 2, 8).unwrap();
    graph.add_edge(2, 2, 1).unwrap();
    assert_eq!(graph.hops(2), vec![(2, 1), (1, 8)]);
    assert_eq!(graph.neighbors(2), vec![2, 1]);
    assert_eq!(graph.hops(1), vec![(2, 8)]);
}

#[test]
fn update_overwrites_the_newest_link_in_the_given_direction() {
    let mut graph = graph_of(3);
    graph.add_edge(0, 1, 5).unwrap();
    graph.add_edge(1, 0, 6).unwrap();
    graph.add_edge(0, 1, 7).unwrap();
    assert_eq!(graph.update_edge(0, 1, 0), Ok(()));
    assert_eq!(graph.link_list(), vec![(0, 1, 5), (1, 0, 6), (0, 1, 0)]);
    assert_eq!(graph.update_edge(1, 0, 9), Ok(()));
    assert_eq!(graph.link_list(), vec![(0, 1, 5), (1, 0, 9), (0, 1, 0)]);
}

#[test]
fn update_appends_where_nothing_joins_the_pair() {
    let mut graph = graph_of(3);
    graph.add_edge(0, 1, 5).unwrap();
    assert_eq!(graph.update_edge(1, 2, 4), Ok(()));
    assert_eq!(graph.link_list(), vec![(0, 1, 5), (1, 2, 4)]);
}

#[test]
fn update_falls_back_on_the_opposite_direction() {
    let mut graph = graph_of(3);
    graph.add_edge(1, 2, 4).unwrap();
    graph.add_edge(1, 2, 6).unwrap();
    assert_eq!(graph.update_edge(2, 1, 8), Ok(()));
    assert_eq!(graph.link_list(), vec![(1, 2, 4), (1, 2, 8)]);
}

#[test]
fn update_is_idempotent_on_one_pair() {
    let mut graph = graph_of(2);
    graph.update_edge(0, 1, 0).unwrap();
    let once = graph.link_list();
    graph.update_edge(0, 1, 0).unwrap();
    graph.update_edge(1, 0, 0).unwrap();
    assert_eq!(graph.link_list(), once);
    assert_eq!(once, vec![(0, 1, 0)]);
}

#[test]
fn links_to_unknown_nodes_are_refused() {
    let mut graph = graph_of(2);
    assert_eq!(graph.add_edge(0, 2, 1), Err(GraphError::UnknownNode));
    assert_eq!(graph.add_edge(2, 0, 1), Err(GraphError::UnknownNode));
    assert_eq!(graph.update_edge(5, 1, 1), Err(GraphError::UnknownNode));
    assert_eq!(graph.update_edge(1, 5, 1), Err(GraphError::UnknownNode));
    assert_eq!(graph.edge_count(), 0);
    assert_eq!(graph.link_list(), vec![]);
}

#[test]
fn holds_finds_members_only() {
    assert!(holds(&vec![4, 9, 4], 9));
    assert!(holds(&vec![4, 9, 4], 4));
    assert!(!holds(&vec![4, 9, 4], 5));
    assert!(!holds(&vec![], 0));
}
