use contact_relay::builder::{
    apply_pair, close_cliques, considers, knows_all, odds, place_link, populate_city, settle,
    share_member, wire_local, wire_shortcuts, BuildError, Resident, Wiring, BRIDGE_HOURS,
    LOCAL_HOURS, SHORTCUT_HOURS,
};
use contact_relay::entity::{Location, Person};
use contact_relay::graph::ContactGraph;
use contact_relay::random::RandomSource;

fn someone(id: u128, has_car: bool, has_net_now: bool) -> Person {
    Person { id, home: Location { x: 3, y: 4 }, has_car, has_net_now }
}

/// A graph of `flags.len()` people, one per `(has_car, has_net_now)` pair,
/// with its residents.
fn town(flags: &[(bool, bool)]) -> (ContactGraph, Vec<Resident>) {
    let mut graph = ContactGraph::new();
    let mut residents = Vec::new();
    for (k, (car, net)) in flags.iter().enumerate() {
        let person = someone(1000 + k as u128, *car, *net);
        let node = graph.add_node(person).unwrap();
        residents.push(Resident { person, node });
    }
    (graph, residents)
}

#[test]
fn weights_of_the_three_kinds_of_link() {
    assert_eq!(SHORTCUT_HOURS, 0);
    assert_eq!(LOCAL_HOURS, 1);
    assert_eq!(BRIDGE_HOURS, 3);
    assert_eq!(odds(Wiring::Local), (1, 100));
    assert_eq!(odds(Wiring::Closure), (1, 10));
    assert_eq!(odds(Wiring::Shortcut), (1, 1));
}

#[test]
fn settle_inserts_people_in_order() {
    let mut graph = ContactGraph::new();
    let mut rng = RandomSource::seeded(17);
    let first = settle(&mut graph, &mut rng, 5).unwrap();
    let second = settle(&mut graph, &mut rng, 3).unwrap();
    assert_eq!(first.len(), 5);
    assert_eq!(second.len(), 3);
    assert_eq!(graph.node_count(), 8);
    assert_eq!(graph.edge_count(), 0);
    for (k, resident) in first.iter().chain(second.iter()).enumerate() {
        assert_eq!(resident.node, k as u32);
        assert_eq!(graph.person(resident.node), Some(resident.person));
    }
    assert!(knows_all(&graph, &first));
    assert!(knows_all(&graph, &second));
}

#[test]
fn settle_nobody_changes_nothing() {
    let mut graph = ContactGraph::new();
    let mut rng = RandomSource::seeded(17);
    assert_eq!(settle(&mut graph, &mut rng, 0), Ok(vec![]));
    assert_eq!(graph.node_count(), 0);
}

#[test]
fn settle_refuses_more_people_than_handles() {
    let mut graph = ContactGraph::new();
    let mut rng = RandomSource::seeded(17);
    settle(&mut graph, &mut rng, 2).unwrap();
    assert_eq!(settle(&mut graph, &mut rng, usize::MAX), Err(BuildError::NodeLimit));
    assert_eq!(settle(&mut graph, &mut rng, u32::MAX as usize - 1), Err(BuildError::NodeLimit));
    assert_eq!(graph.node_count(), 2);
    assert_eq!(populate_city(&mut graph, &mut rng, u32::MAX as usize), Err(BuildError::NodeLimit));
    assert_eq!(graph.node_count(), 2);
    assert_eq!(graph.edge_count(), 0);
}

#[test]
fn passes_refuse_residents_of_another_graph() {
    let (mut graph, mut residents) = town(&[(false, true), (false, true)]);
    residents.push(Resident { person: someone(5, true, true), node: 2 });
    let mut rng = RandomSource::seeded(1);
    assert!(!knows_all(&graph, &residents));
    assert_eq!(wire_local(&mut graph, &mut rng, &residents), Err(BuildError::UnknownNode));
    assert_eq!(close_cliques(&mut graph, &mut rng, &residents), Err(BuildError::UnknownNode));
    assert_eq!(wire_shortcuts(&mut graph, &residents), Err(BuildError::UnknownNode));
    assert_eq!(graph.edge_count(), 0);
}

#[test]
fn local_links_have_one_hour_and_join_distinct_residents() {
    let (mut graph, residents) = town(&[(false, false); 200]);
    let mut rng = RandomSource::seeded(5);
    graph.add_edge(0, 1, 3).unwrap();
    assert_eq!(wire_local(&mut graph, &mut rng, &residents), Ok(()));
    let links = graph.link_list();
    assert_eq!(links[0], (0, 1, 3));
    let added = &links[1..];
    // 39800 ordered pairs, each linked one time in a hundred
    assert!(added.len() > 300 && added.len() < 500, "links added: {}", added.len());
    let mut last_pair = (0, 0);
    for (k, (a, b, hours)) in added.iter().enumerate() {
        assert_eq!(*hours, 1);
        assert_ne!(a, b);
        assert!(*a < 200 && *b < 200);
        if k > 0 {
            assert!((*a, *b) > last_pair, "pairs are visited in row order");
        }
        last_pair = (*a, *b);
    }
    assert_eq!(graph.node_count(), 200);
}

#[test]
fn residents_with_one_identifier_are_never_linked() {
    let mut graph = ContactGraph::new();
    let person = someone(7, true, true);
    let mut residents = Vec::new();
    for _ in 0..12 {
        let node = graph.add_node(person).unwrap();
        residents.push(Resident { person, node });
    }
    let mut rng = RandomSource::seeded(3);
    for _ in 0..20 {
        wire_local(&mut graph, &mut rng, &residents).unwrap();
    }
    wire_shortcuts(&mut graph, &residents).unwrap();
    assert_eq!(graph.edge_count(), 0);
    assert!(!considers(&graph, residents[0], residents[1], Wiring::Local));
    assert!(!considers(&graph, residents[0], residents[1], Wiring::Shortcut));
}

#[test]
fn closure_considers_open_triangles_only() {
    let (mut graph, residents) = town(&[(false, false); 4]);
    graph.add_edge(0, 1, 1).unwrap();
    graph.add_edge(2, 1, 1).unwrap();
    let r = &residents;
    assert!(considers(&graph, r[0], r[2], Wiring::Closure));
    assert!(considers(&graph, r[2], r[0], Wiring::Closure));
    assert!(!considers(&graph, r[0], r[1], Wiring::Closure));
    assert!(!considers(&graph, r[1], r[2], Wiring::Closure));
    assert!(!considers(&graph, r[0], r[3], Wiring::Closure));
    assert!(!considers(&graph, r[3], r[1], Wiring::Closure));
    assert!(!considers(&graph, r[0], r[0], Wiring::Closure));
    graph.add_edge(2, 0, 1).unwrap();
    assert!(!considers(&graph, r[0], r[2], Wiring::Closure));
    assert!(considers(&graph, r[0], r[2], Wiring::Local));
    assert!(!considers(&graph, r[0], r[2], Wiring::Shortcut));
}

#[test]
fn closure_closes_an_open_triangle_at_most_once() {
    let mut closed = 0;
    for seed in 0..300 {
        let (mut graph, residents) = town(&[(false, false); 4]);
        graph.add_edge(0, 1, 1).unwrap();
        graph.add_edge(1, 2, 1).unwrap();
        let mut rng = RandomSource::seeded(seed);
        assert_eq!(close_cliques(&mut graph, &mut rng, &residents), Ok(()));
        let links = graph.link_list();
        assert_eq!(&links[..2], &[(0, 1, 1), (1, 2, 1)]);
        assert!(links.len() <= 3);
        if links.len() == 3 {
            assert!(links[2] == (0, 2, 1) || links[2] == (2, 0, 1));
            closed += 1;
        }
    }
    // closed by the pair (0, 2) or else by (2, 0): 19 times in 100
    assert!(closed > 30 && closed < 90, "triangles closed: {}", closed);
}

#[test]
fn closure_reads_the_links_it_has_added() {
    // a star: 0 is linked to 1, 2 and 3; closing (1, 2) and (2, 3) makes 1 and 3
    // share the neighbour 2 as well, and no pair is ever linked twice
    for seed in 0..100 {
        let (mut graph, residents) = town(&[(false, false); 4]);
        for leaf in 1..4 {
            graph.add_edge(0, leaf, 1).unwrap();
        }
        let mut rng = RandomSource::seeded(seed);
        close_cliques(&mut graph, &mut rng, &residents).unwrap();
        let links = graph.link_list();
        for (k, (a, b, hours)) in links.iter().enumerate() {
            assert_eq!(*hours, 1);
            for (c, d, _) in &links[..k] {
                assert!(!((a, b) == (c, d) || (a, b) == (d, c)), "pair linked twice");
            }
        }
    }
}

#[test]
fn share_member_finds_common_members_only() {
    assert!(share_member(&vec![1, 2, 3], &vec![9, 3]));
    assert!(share_member(&vec![4], &vec![4, 4]));
    assert!(!share_member(&vec![1, 2, 3], &vec![4, 5]));
    assert!(!share_member(&vec![], &vec![4, 5]));
    assert!(!share_member(&vec![1], &vec![]));
}

#[test]
fn shortcuts_join_every_two_online_residents() {
    let (mut graph, residents) = town(&[(false, true), (false, true), (false, false), (false, true)]);
    assert_eq!(wire_shortcuts(&mut graph, &residents), Ok(()));
    assert_eq!(graph.link_list(), vec![(0, 1, 0), (0, 3, 0), (1, 3, 0)]);
    assert_eq!(graph.hops(2), vec![]);
}

#[test]
fn shortcuts_overwrite_slower_links() {
    let (mut graph, residents) = town(&[(false, true), (false, true), (false, false)]);
    graph.add_edge(0, 1, 1).unwrap();
    graph.add_edge(1, 0, 1).unwrap();
    graph.add_edge(1, 2, 1).unwrap();
    graph.add_edge(2, 0, 1).unwrap();
    assert_eq!(wire_shortcuts(&mut graph, &residents), Ok(()));
    assert_eq!(graph.link_list(), vec![(0, 1, 0), (1, 0, 0), (1, 2, 1), (2, 0, 1)]);
}

#[test]
fn shortcut_pass_is_idempotent() {
    let mut rng = RandomSource::seeded(21);
    let mut graph = ContactGraph::new();
    let residents = settle(&mut graph, &mut rng, 120).unwrap();
    wire_local(&mut graph, &mut rng, &residents).unwrap();
    close_cliques(&mut graph, &mut rng, &residents).unwrap();
    assert!(graph.edge_count() > 50);
    wire_shortcuts(&mut graph, &residents).unwrap();
    let once = graph.link_list();
    wire_shortcuts(&mut graph, &residents).unwrap();
    assert_eq!(graph.link_list(), once);
    wire_shortcuts(&mut graph, &residents).unwrap();
    assert_eq!(graph.link_list(), once);
    // after one local pass and one closure pass no two links have the same
    // endpoints in the same order, so every link between online residents is found
    for (a, b, hours) in &once {
        let online = |node: &u32| residents[*node as usize].person.has_net_now;
        if online(a) && online(b) {
            assert_eq!(*hours, 0);
        } else {
            assert_eq!(*hours, 1);
        }
    }
    for a in &residents {
        for b in &residents {
            if a.node != b.node && a.person.has_net_now && b.person.has_net_now {
                assert!(graph.hops(a.node).contains(&(b.node, 0)));
            }
        }
    }
}

#[test]
fn populated_city_has_local_and_shortcut_links_only() {
    let mut rng = RandomSource::seeded(8);
    let mut graph = ContactGraph::new();
    graph.add_node(someone(1, false, false)).unwrap();
    graph.add_node(someone(2, false, false)).unwrap();
    graph.add_edge(0, 1, 3).unwrap();
    let residents = populate_city(&mut graph, &mut rng, 60).unwrap();
    assert_eq!(residents.len(), 60);
    assert_eq!(graph.node_count(), 62);
    let links = graph.link_list();
    assert_eq!(links[0], (0, 1, 3));
    assert!(links.len() > 1);
    for (a, b, hours) in &links[1..] {
        assert!(*hours == 0 || *hours == 1);
        assert!(*a >= 2 && *b >= 2 && *a < 62 && *b < 62);
    }
    for (k, resident) in residents.iter().enumerate() {
        assert_eq!(resident.node, 2 + k as u32);
    }
}

#[test]
fn city_construction_is_reproducible_from_a_seed() {
    let build = |seed: u64| {
        let mut rng = RandomSource::seeded(seed);
        let mut graph = ContactGraph::new();
        let residents = populate_city(&mut graph, &mut rng, 50).unwrap();
        (residents, graph.link_list())
    };
    assert_eq!(build(13), build(13));
    assert_ne!(build(13).0, build(14).0);
}

#[test]
fn a_pair_is_linked_as_its_draw_says() {
    let (mut graph, r) = town(&[(false, true), (false, true), (false, false)]);
    assert_eq!(apply_pair(&mut graph, r[0], r[1], Wiring::Local, false), Ok(()));
    assert_eq!(graph.link_list(), vec![]);
    assert_eq!(apply_pair(&mut graph, r[0], r[1], Wiring::Local, true), Ok(()));
    assert_eq!(apply_pair(&mut graph, r[1], r[0], Wiring::Local, true), Ok(()));
    assert_eq!(apply_pair(&mut graph, r[0], r[1], Wiring::Local, true), Ok(()));
    assert_eq!(graph.link_list(), vec![(0, 1, 1), (1, 0, 1), (0, 1, 1)]);
    // a pair with itself is never considered
    assert_eq!(apply_pair(&mut graph, r[2], r[2], Wiring::Local, true), Ok(()));
    assert_eq!(graph.edge_count(), 3);
}

#[test]
fn a_pair_is_closed_only_over_an_open_triangle() {
    let (mut graph, r) = town(&[(false, false); 4]);
    graph.add_edge(0, 1, 1).unwrap();
    graph.add_edge(1, 2, 1).unwrap();
    assert_eq!(apply_pair(&mut graph, r[0], r[3], Wiring::Closure, true), Ok(()));
    assert_eq!(apply_pair(&mut graph, r[0], r[1], Wiring::Closure, true), Ok(()));
    assert_eq!(apply_pair(&mut graph, r[0], r[2], Wiring::Closure, false), Ok(()));
    assert_eq!(graph.edge_count(), 2);
    assert_eq!(apply_pair(&mut graph, r[0], r[2], Wiring::Closure, true), Ok(()));
    assert_eq!(graph.link_list(), vec![(0, 1, 1), (1, 2, 1), (0, 2, 1)]);
    assert_eq!(apply_pair(&mut graph, r[2], r[0], Wiring::Closure, true), Ok(()));
    assert_eq!(graph.edge_count(), 3);
}

#[test]
fn a_shortcut_ignores_the_draw() {
    let (mut graph, r) = town(&[(false, true), (false, true), (false, false)]);
    graph.add_edge(1, 0, 1).unwrap();
    assert_eq!(apply_pair(&mut graph, r[0], r[1], Wiring::Shortcut, false), Ok(()));
    assert_eq!(graph.link_list(), vec![(1, 0, 0)]);
    assert_eq!(apply_pair(&mut graph, r[0], r[2], Wiring::Shortcut, true), Ok(()));
    assert_eq!(apply_pair(&mut graph, r[2], r[1], Wiring::Shortcut, true), Ok(()));
    assert_eq!(graph.link_list(), vec![(1, 0, 0)]);
}

#[test]
fn a_link_is_placed_between_known_nodes_only() {
    let (mut graph, _) = town(&[(false, true), (false, true)]);
    assert_eq!(place_link(&mut graph, 0, 1, Wiring::Local, true), Ok(()));
    assert_eq!(place_link(&mut graph, 0, 1, Wiring::Closure, true), Ok(()));
    assert_eq!(place_link(&mut graph, 0, 1, Wiring::Closure, false), Ok(()));
    assert_eq!(graph.link_list(), vec![(0, 1, 1), (0, 1, 1)]);
    assert_eq!(place_link(&mut graph, 1, 0, Wiring::Shortcut, false), Ok(()));
    assert_eq!(graph.link_list(), vec![(0, 1, 1), (0, 1, 0)]);
    assert_eq!(place_link(&mut graph, 0, 2, Wiring::Local, true), Err(BuildError::UnknownNode));
    assert_eq!(place_link(&mut graph, 2, 0, Wiring::Shortcut, true), Err(BuildError::UnknownNode));
    // a draw that came out false places nothing, wherever it points
    assert_eq!(place_link(&mut graph, 0, 2, Wiring::Local, false), Ok(()));
    assert_eq!(graph.edge_count(), 2);
}

#[test]
fn a_city_where_nobody_is_online_keeps_its_local_links() {
    let (mut graph, r) = town(&[(true, false), (true, true), (false, false), (true, false)]);
    let mut rng = RandomSource::seeded(15);
    for _ in 0..30 {
        wire_local(&mut graph, &mut rng, &r).unwrap();
    }
    let before = graph.link_list();
    assert!(!before.is_empty());
    assert_eq!(wire_shortcuts(&mut graph, &r), Ok(()));
    assert_eq!(graph.link_list(), before);
}
