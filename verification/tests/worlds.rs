use contact_relay::builder::{BuildError, Resident};
use contact_relay::entity::{City, Location, Person};
use contact_relay::graph::ContactGraph;
use contact_relay::random::RandomSource;
use contact_relay::relay::{transmit, Outcome};
use contact_relay::world::{
    bridge_cities, build_world, drives, find_bridge_fault, CityRoster, WorldPlan, CITY_COUNT,
    LARGE_CITY, SMALL_CITY,
};

fn someone(id: u128, has_car: bool) -> Person {
    Person { id, home: Location { x: 0, y: 0 }, has_car, has_net_now: false }
}

fn a_city(id: u128) -> City {
    City { id, center: Location { x: 5, y: 6 }, radius: 12 }
}

/// Cities whose residents own a car where the flag says so.
fn cities(flags: &[&[bool]]) -> (ContactGraph, Vec<CityRoster>) {
    let mut graph = ContactGraph::new();
    let mut rosters = Vec::new();
    for (c, city_flags) in flags.iter().enumerate() {
        let mut residents = Vec::new();
        for has_car in city_flags.iter() {
            let person = someone(graph.node_count() as u128, *has_car);
            let node = graph.add_node(person).unwrap();
            residents.push(Resident { person, node });
        }
        rosters.push(CityRoster { city: a_city(c as u128), residents });
    }
    (graph, rosters)
}

#[test]
fn standard_plan_has_ten_cities_of_two_sizes() {
    let plan = WorldPlan::standard();
    assert_eq!(plan, WorldPlan { cities: 10, small_city: 10_000, large_city: 300_000 });
    assert_eq!((CITY_COUNT, SMALL_CITY, LARGE_CITY), (10, 10_000, 300_000));
    assert_eq!(plan.city_size(true), 10_000);
    assert_eq!(plan.city_size(false), 300_000);
}

#[test]
fn car_owners_are_bridged_to_the_next_entry_point() {
    let (mut graph, rosters) =
        cities(&[&[true, false, true], &[false, true], &[true, true, false]]);
    assert_eq!(find_bridge_fault(&graph, &rosters), None);
    assert_eq!(bridge_cities(&mut graph, &rosters), Ok(()));
    assert_eq!(graph.link_list(), vec![(0, 3, 3), (2, 3, 3), (4, 5, 3)]);
    assert_eq!(rosters[1].entry_point().unwrap().node, 3);
    assert_eq!(rosters[2].entry_point().unwrap().node, 5);
}

#[test]
fn bridges_stand_beside_the_links_already_there() {
    let (mut graph, rosters) = cities(&[&[true], &[true]]);
    graph.add_edge(0, 1, 0).unwrap();
    assert_eq!(bridge_cities(&mut graph, &rosters), Ok(()));
    assert_eq!(graph.link_list(), vec![(0, 1, 0), (0, 1, 3)]);
}

#[test]
fn one_city_or_none_has_no_bridge() {
    let (mut graph, rosters) = cities(&[&[true, true]]);
    assert_eq!(bridge_cities(&mut graph, &rosters), Ok(()));
    assert_eq!(graph.edge_count(), 0);
    let (mut graph, rosters) = cities(&[]);
    assert_eq!(bridge_cities(&mut graph, &rosters), Ok(()));
    assert_eq!(graph.edge_count(), 0);
}

#[test]
fn car_owners_cannot_drive_to_an_empty_city() {
    let (mut graph, rosters) = cities(&[&[false, true], &[], &[true]]);
    assert_eq!(find_bridge_fault(&graph, &rosters), Some(BuildError::EmptyCity));
    assert_eq!(bridge_cities(&mut graph, &rosters), Err(BuildError::EmptyCity));
    assert_eq!(graph.edge_count(), 0);
    assert_eq!(rosters[1].entry_point(), None);
}

#[test]
fn an_empty_city_is_passed_over_where_nobody_drives_to_it() {
    let (mut graph, rosters) = cities(&[&[false, false], &[], &[true]]);
    assert!(!drives(&rosters[0].residents));
    assert!(drives(&rosters[2].residents));
    assert_eq!(bridge_cities(&mut graph, &rosters), Ok(()));
    assert_eq!(graph.edge_count(), 0);
}

#[test]
fn bridging_refuses_residents_of_another_graph() {
    let (mut graph, mut rosters) = cities(&[&[false], &[false]]);
    rosters[1].residents.push(Resident { person: someone(9, false), node: 2 });
    assert_eq!(find_bridge_fault(&graph, &rosters), Some(BuildError::UnknownNode));
    assert_eq!(bridge_cities(&mut graph, &rosters), Err(BuildError::UnknownNode));
}

#[test]
fn sample_returns_a_resident_of_the_city() {
    let (_, rosters) = cities(&[&[true, false, true], &[]]);
    let mut rng = RandomSource::seeded(10);
    for _ in 0..50 {
        let resident = rosters[0].sample(&mut rng).unwrap();
        assert!(rosters[0].residents.contains(&resident));
    }
    assert_eq!(rosters[1].sample(&mut rng), None);
}

#[test]
fn built_world_follows_the_plan() {
    let plan = WorldPlan { cities: 6, small_city: 8, large_city: 25 };
    for seed in 0..10 {
        let mut rng = RandomSource::seeded(seed);
        let world = build_world(&mut rng, plan).unwrap();
        assert_eq!(world.rosters.len(), 6);
        let mut next_node = 0;
        for roster in &world.rosters {
            let size = roster.residents.len();
            assert!(size == 8 || size == 25);
            assert!(roster.city.radius == 100 || roster.city.radius == 12);
            for resident in &roster.residents {
                assert_eq!(resident.node, next_node);
                assert_eq!(world.graph.person(resident.node), Some(resident.person));
                next_node += 1;
            }
        }
        assert_eq!(world.graph.node_count(), next_node as usize);
        let city_of = |node: u32| {
            world.rosters.iter().position(|r| r.residents.iter().any(|p| p.node == node)).unwrap()
        };
        for (a, b, hours) in world.graph.link_list() {
            assert!(hours == 0 || hours == 1 || hours == 3);
            if hours == 3 {
                assert_eq!(city_of(a) + 1, city_of(b));
                assert!(world.graph.person(a).unwrap().has_car);
                assert_eq!(b, world.rosters[city_of(b)].residents[0].node);
            } else {
                assert_eq!(city_of(a), city_of(b));
            }
            if hours == 0 {
                assert!(world.graph.person(a).unwrap().has_net_now);
                assert!(world.graph.person(b).unwrap().has_net_now);
            }
        }
    }
}

#[test]
fn both_city_sizes_occur() {
    let plan = WorldPlan { cities: 40, small_city: 1, large_city: 2 };
    let world = build_world(&mut RandomSource::seeded(3), plan).unwrap();
    let small = world.rosters.iter().filter(|r| r.residents.len() == 1).count();
    let large = world.rosters.iter().filter(|r| r.residents.len() == 2).count();
    assert_eq!(small + large, 40);
    assert!(small >= 8 && large >= 8);
}

#[test]
fn world_construction_is_reproducible_from_a_seed() {
    let plan = WorldPlan { cities: 4, small_city: 10, large_city: 30 };
    let build = |seed: u64| {
        let world = build_world(&mut RandomSource::seeded(seed), plan).unwrap();
        let mut people = Vec::new();
        for node in 0..world.graph.node_count() {
            people.push(world.graph.person(node as u32).unwrap());
        }
        let cities: Vec<City> = world.rosters.iter().map(|r| r.city).collect();
        let rosters: Vec<Vec<Resident>> =
            world.rosters.iter().map(|r| r.residents.clone()).collect();
        (people, world.graph.link_list(), cities, rosters)
    };
    for seed in [0, 1, 500] {
        assert_eq!(build(seed), build(seed));
    }
    assert_ne!(build(1).0, build(2).0);
}

#[test]
fn world_without_cities_is_empty() {
    let plan = WorldPlan { cities: 0, small_city: 10, large_city: 30 };
    let world = build_world(&mut RandomSource::seeded(1), plan).unwrap();
    assert_eq!(world.rosters.len(), 0);
    assert_eq!(world.graph.node_count(), 0);
    assert_eq!(world.graph.edge_count(), 0);
}

#[test]
fn world_too_large_for_its_handles_is_refused() {
    let plan = WorldPlan { cities: 2, small_city: usize::MAX, large_city: usize::MAX };
    assert_eq!(build_world(&mut RandomSource::seeded(1), plan).err(), Some(BuildError::NodeLimit));
}

#[test]
fn messages_cross_a_built_world() {
    let plan = WorldPlan { cities: 3, small_city: 30, large_city: 40 };
    let mut rng = RandomSource::seeded(44);
    let world = build_world(&mut rng, plan).unwrap();
    let mut delivered = 0;
    for _ in 0..20 {
        let from = world.rosters[0].sample(&mut rng).unwrap().node;
        let to = world.rosters[2].sample(&mut rng).unwrap().node;
        if world.graph.hops(from).is_empty() {
            continue;
        }
        match transmit(&world.graph, &mut rng, from, to, 2_000) {
            Ok(Outcome::Delivered(hours)) => {
                // two bridges lie between the first city and the third
                assert!(hours >= 6);
                delivered += 1;
            }
            Ok(Outcome::NotReached) => {}
            Err(e) => panic!("relay failed: {:?}", e),
        }
    }
    assert!(delivered > 0);
}
