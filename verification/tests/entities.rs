use contact_relay::entity::{
    radius_of_draw, City, Location, Person, BIKE_RADIUS, CAR_RADIUS, NET_ODDS, NET_ODDS_OUT_OF,
};
use contact_relay::random::RandomSource;

#[test]
fn radius_follows_the_draw() {
    assert_eq!(radius_of_draw(true), 100);
    assert_eq!(radius_of_draw(false), 12);
    assert_eq!(CAR_RADIUS, 100);
    assert_eq!(BIKE_RADIUS, 12);
}

#[test]
fn person_is_made_of_its_draws() {
    assert_eq!(
        Person::of_draws(7, 11, 13, true, false),
        Person { id: 7, home: Location { x: 11, y: 13 }, has_car: true, has_net_now: false }
    );
    assert_eq!(
        Person::of_draws(u128::MAX, 0, u64::MAX, false, true),
        Person { id: u128::MAX, home: Location { x: 0, y: u64::MAX }, has_car: false, has_net_now: true }
    );
    assert_eq!((NET_ODDS, NET_ODDS_OUT_OF), (9, 10));
}

#[test]
fn people_are_online_nine_times_in_ten() {
    let mut rng = RandomSource::seeded(2024);
    let total = 40_000;
    let mut online = 0;
    for _ in 0..total {
        if Person::new(&mut rng).has_net_now {
            online += 1;
        }
    }
    let share = online as f64 / total as f64;
    assert!(share > 0.88 && share < 0.92, "share online: {}", share);
}

#[test]
fn people_own_a_car_every_other_time() {
    let mut rng = RandomSource::seeded(77);
    let total = 40_000;
    let mut owners = 0;
    for _ in 0..total {
        if Person::new(&mut rng).has_car {
            owners += 1;
        }
    }
    let share = owners as f64 / total as f64;
    assert!(share > 0.47 && share < 0.53, "share of car owners: {}", share);
}

#[test]
fn city_radius_is_one_of_two_values_split_evenly() {
    let mut rng = RandomSource::seeded(31);
    let total = 20_000;
    let mut wide = 0;
    for _ in 0..total {
        let city = City::new(&mut rng);
        assert!(city.radius == 100 || city.radius == 12);
        if city.radius == 100 {
            wide += 1;
        }
    }
    let share = wide as f64 / total as f64;
    assert!(share > 0.47 && share < 0.53, "share of wide cities: {}", share);
}

#[test]
fn identifiers_do_not_repeat_in_a_sample() {
    let mut rng = RandomSource::seeded(4);
    let mut ids: Vec<u128> = Vec::new();
    for _ in 0..2_000 {
        ids.push(Person::new(&mut rng).id);
        ids.push(City::new(&mut rng).id);
    }
    let drawn = ids.len();
    ids.sort();
    ids.dedup();
    assert_eq!(ids.len(), drawn);
}

#[test]
fn generation_is_reproducible_from_a_seed() {
    let mut one = RandomSource::seeded(99);
    let mut two = RandomSource::seeded(99);
    for _ in 0..100 {
        assert_eq!(Person::new(&mut one), Person::new(&mut two));
        assert_eq!(City::new(&mut one), City::new(&mut two));
    }
    let mut other = RandomSource::seeded(100);
    assert_ne!(Person::new(&mut RandomSource::seeded(99)).id, Person::new(&mut other).id);
}

#[test]
fn draws_with_certain_odds_are_certain() {
    let mut rng = RandomSource::seeded(6);
    for _ in 0..200 {
        assert!(rng.chance(1, 1));
        assert!(rng.chance(7, 7));
        assert!(!rng.chance(0, 5));
    }
}

#[test]
fn pick_returns_a_member_or_nothing() {
    let mut rng = RandomSource::seeded(12);
    let empty: Vec<u32> = Vec::new();
    assert_eq!(rng.pick(&empty), None);
    assert_eq!(rng.pick(&vec![41u32]), Some(41));
    let items = vec![3u32, 5, 8];
    let mut seen = [false; 3];
    for _ in 0..200 {
        let picked = rng.pick(&items).unwrap();
        let at = items.iter().position(|item| *item == picked).unwrap();
        seen[at] = true;
    }
    assert_eq!(seen, [true, true, true]);
}

#[test]
fn words_and_flips_vary() {
    let mut rng = RandomSource::seeded(3);
    let first = rng.word();
    let mut differs = false;
    let mut heads = 0;
    for _ in 0..1_000 {
        if rng.word() != first {
            differs = true;
        }
        if rng.flip() {
            heads += 1;
        }
    }
    assert!(differs);
    assert!(heads > 400 && heads < 600);
    assert_ne!(rng.wide_word(), rng.wide_word());
}
