use contact_relay::entity::{Location, Person};
use contact_relay::graph::ContactGraph;
use contact_relay::random::RandomSource;
use contact_relay::relay::{transmit, Outcome, RelayError, RelayState};

fn someone(id: u128) -> Person {
    Person { id, home: Location { x: 0, y: 0 }, has_car: false, has_net_now: false }
}

/// A - B with 2 hours, B - C with 5 hours, and D apart from all.
fn path_graph() -> ContactGraph {
    let mut graph = ContactGraph::new();
    for id in 0..4 {
        graph.add_node(someone(id)).unwrap();
    }
    graph.add_edge(0, 1, 2).unwrap();
    graph.add_edge(1, 2, 5).unwrap();
    graph
}

#[test]
fn initial_state_holds_the_start_at_hour_zero() {
    let state = RelayState::new(3);
    assert_eq!(state.arrival_list(), vec![(3, 0)]);
    assert_eq!(state.holder_count(), 1);
    assert_eq!(state.arrival(3), Some(0));
    assert_eq!(state.arrival(0), None);
}

#[test]
fn transmit_to_the_start_takes_no_time() {
    let graph = path_graph();
    let mut rng = RandomSource::seeded(1);
    for node in 0..4 {
        assert_eq!(transmit(&graph, &mut rng, node, node, 0), Ok(Outcome::Delivered(0)));
        assert_eq!(transmit(&graph, &mut rng, node, node, 9), Ok(Outcome::Delivered(0)));
    }
}

#[test]
fn path_relay_along_the_only_way_takes_seven_hours() {
    let state = RelayState::new(0);
    let state = state.advance(&vec![(1, 2)]).unwrap();
    assert_eq!(state.arrival_list(), vec![(0, 0), (1, 2)]);
    assert_eq!(state.arrival(2), None);
    let state = state.advance(&vec![(1, 2), (2, 5)]).unwrap();
    assert_eq!(state.arrival_list(), vec![(0, 0), (1, 2), (2, 7)]);
    assert_eq!(state.arrival(2), Some(7));
}

#[test]
fn path_relay_with_random_picks_never_beats_seven_hours() {
    let graph = path_graph();
    let mut fastest = u64::MAX;
    for seed in 0..200 {
        let mut rng = RandomSource::seeded(seed);
        match transmit(&graph, &mut rng, 0, 2, 10_000) {
            Ok(Outcome::Delivered(hours)) => {
                assert!(hours >= 7);
                assert_eq!(hours % 2, 1);
                fastest = fastest.min(hours);
            }
            other => panic!("seed {} ended in {:?}", seed, other),
        }
    }
    assert_eq!(fastest, 7);
}

#[test]
fn merge_overwrites_even_with_a_later_time() {
    let state = RelayState::new(0).advance(&vec![(1, 2)]).unwrap();
    let state = state.advance(&vec![(1, 2), (0, 2)]).unwrap();
    assert_eq!(state.arrival_list(), vec![(0, 4), (1, 2)]);
    let state = state.advance(&vec![(1, 2), (0, 2)]).unwrap();
    assert_eq!(state.arrival_list(), vec![(0, 4), (1, 6)]);
}

#[test]
fn later_candidate_of_one_round_wins() {
    let state = RelayState::new(0).advance(&vec![(1, 1)]).unwrap();
    let state = state.advance(&vec![(2, 10), (2, 3)]).unwrap();
    assert_eq!(state.arrival_list(), vec![(0, 0), (1, 1), (2, 4)]);
    let state = state.advance(&vec![(5, 1), (5, 1), (5, 1)]).unwrap();
    assert_eq!(state.arrival(5), Some(5));
    assert_eq!(state.holder_count(), 4);
}

#[test]
fn every_holder_relays_in_every_round() {
    let graph = path_graph();
    let mut rng = RandomSource::seeded(11);
    let first = RelayState::new(0).relay_round(&graph, &mut rng).unwrap();
    assert_eq!(first.arrival_list(), vec![(0, 0), (1, 2)]);
    let picks = first.draw_picks(&graph, &mut rng).unwrap();
    assert_eq!(picks.len(), 2);
    assert_eq!(picks[0], (1, 2));
    assert!(picks[1] == (0, 2) || picks[1] == (2, 5));
}

#[test]
fn wrong_number_of_picks_is_refused() {
    let state = RelayState::new(0);
    assert_eq!(state.advance(&vec![]).err(), Some(RelayError::PickCount));
    assert_eq!(state.advance(&vec![(1, 1), (2, 1)]).err(), Some(RelayError::PickCount));
}

#[test]
fn stranded_start_fails_with_no_incident_edge() {
    let graph = path_graph();
    let mut rng = RandomSource::seeded(5);
    assert_eq!(transmit(&graph, &mut rng, 3, 0, 100), Err(RelayError::NoIncidentEdge(3)));
    let state = RelayState::new(3);
    assert_eq!(state.draw_picks(&graph, &mut rng), Err(RelayError::NoIncidentEdge(3)));
    assert_eq!(state.relay_round(&graph, &mut rng).err(), Some(RelayError::NoIncidentEdge(3)));
}

#[test]
fn unknown_start_fails_with_no_incident_edge() {
    let graph = path_graph();
    let mut rng = RandomSource::seeded(5);
    assert_eq!(transmit(&graph, &mut rng, 40, 0, 100), Err(RelayError::NoIncidentEdge(40)));
}

#[test]
fn unreachable_destination_is_not_reached_within_the_limit() {
    let graph = path_graph();
    for seed in 0..20 {
        let mut rng = RandomSource::seeded(seed);
        assert_eq!(transmit(&graph, &mut rng, 0, 3, 50), Ok(Outcome::NotReached));
    }
}

#[test]
fn no_round_is_relayed_under_a_zero_limit() {
    let graph = path_graph();
    let mut rng = RandomSource::seeded(2);
    assert_eq!(transmit(&graph, &mut rng, 0, 1, 0), Ok(Outcome::NotReached));
    assert_eq!(transmit(&graph, &mut rng, 3, 1, 0), Ok(Outcome::NotReached));
    assert_eq!(transmit(&graph, &mut rng, 0, 1, 1), Ok(Outcome::Delivered(2)));
}

#[test]
fn time_beyond_64_bits_is_reported() {
    let mut graph = ContactGraph::new();
    for id in 0..3 {
        graph.add_node(someone(id)).unwrap();
    }
    graph.add_edge(0, 1, u64::MAX).unwrap();
    let mut rng = RandomSource::seeded(8);
    assert_eq!(transmit(&graph, &mut rng, 0, 2, 10), Err(RelayError::TimeOverflow(1)));
    let state = RelayState::new(0).advance(&vec![(1, u64::MAX)]).unwrap();
    assert_eq!(state.arrival(1), Some(u64::MAX));
    assert_eq!(
        state.advance(&vec![(1, u64::MAX), (0, 1)]).err(),
        Some(RelayError::TimeOverflow(1))
    );
}

#[test]
fn relay_is_reproducible_from_a_seed() {
    let mut graph = ContactGraph::new();
    for id in 0..6 {
        graph.add_node(someone(id)).unwrap();
    }
    for (a, b, hours) in [(0, 1, 1), (1, 2, 3), (2, 3, 1), (3, 4, 0), (4, 5, 3), (0, 3, 1), (1, 4, 1)] {
        graph.add_edge(a, b, hours).unwrap();
    }
    for seed in 0..30 {
        let first = transmit(&graph, &mut RandomSource::seeded(seed), 0, 5, 100_000);
        let second = transmit(&graph, &mut RandomSource::seeded(seed), 0, 5, 100_000);
        assert_eq!(first, second);
        assert!(matches!(first, Ok(Outcome::Delivered(_))));
    }
}
