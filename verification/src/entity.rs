//! People and cities: the attribute records that the graph is built from.

use vstd::prelude::*;
use crate::random::{Draw, RandomSource};

verus! {

/// A point on the map. It identifies where an entity sits; no distance is
/// ever computed from it.
#[derive(Clone, Copy, Debug, PartialEq, Eq, Structural)]
pub struct Location {
    pub x: u64,
    pub y: u64,
}

/// One simulated individual, carried by a graph node.
#[derive(Clone, Copy, Debug, PartialEq, Eq, Structural)]
pub struct Person {
    pub id: u128,
    pub home: Location,
    pub has_car: bool,
    pub has_net_now: bool,
}

/// A partition of the population with its own centre and travel range.
#[derive(Clone, Copy, Debug, PartialEq, Eq, Structural)]
pub struct City {
    pub id: u128,
    pub center: Location,
    pub radius: u64,
}

/// Daily range of a city whose residents mostly drive.
pub const CAR_RADIUS: u64 = 100;

/// Daily range of a city whose residents mostly cycle.
pub const BIKE_RADIUS: u64 = 12;

/// Out of `NET_ODDS_OUT_OF` people, this many are online.
pub const NET_ODDS: u32 = 9;

pub const NET_ODDS_OUT_OF: u32 = 10;

/// The radius that a single fair draw selects.
pub open spec fn radius_for(drives: bool) -> u64 {
    if drives { CAR_RADIUS } else { BIKE_RADIUS }
}

/// The radius that a single fair draw selects.
pub fn radius_of_draw(drives: bool) -> (radius: u64)
    ensures
        radius == radius_for(drives),
{
    if drives { CAR_RADIUS } else { BIKE_RADIUS }
}

/// The draws that make `person`, in the order in which they are made:
/// identifier, home, car ownership, and connectivity with odds of nine in
/// ten.
pub open spec fn person_draws(person: Person) -> Seq<Draw> {
    seq![
        Draw::WideWord(person.id),
        Draw::Word(person.home.x),
        Draw::Word(person.home.y),
        Draw::Flip(person.has_car),
        Draw::Chance(NET_ODDS, NET_ODDS_OUT_OF, person.has_net_now),
    ]
}

/// The draws that make `city`, in the order in which they are made: the
/// fair draw that selects the radius, identifier, and centre.
pub open spec fn city_draws(city: City) -> Seq<Draw> {
    seq![
        Draw::Flip(city.radius == CAR_RADIUS),
        Draw::WideWord(city.id),
        Draw::Word(city.center.x),
        Draw::Word(city.center.y),
    ]
}

impl Person {
    /// The person that five draws make: the identifier, the two coordinates
    /// of the home, whether they own a car and whether they are online.
    pub fn of_draws(id: u128, x: u64, y: u64, has_car: bool, online: bool) -> (person: Person)
        ensures
            person == (Person { id, home: Location { x, y }, has_car, has_net_now: online }),
    {
        Person { id, home: Location { x, y }, has_car, has_net_now: online }
    }

    /// A person with every attribute drawn independently, in this order:
    /// identifier, home, car ownership (fair), and connectivity (nine in
    /// ten). The person is made of exactly these five draws.
    pub fn new(rng: &mut RandomSource) -> (person: Person)
        ensures
            final(rng).drawn() == old(rng).drawn() + person_draws(person),
    {
        proof {
            assert forall|log: Seq<Draw>, p: Person| #[trigger]
                (log + person_draws(p)) == log.push(Draw::WideWord(p.id)).push(
                    Draw::Word(p.home.x),
                ).push(Draw::Word(p.home.y)).push(Draw::Flip(p.has_car)).push(
                    Draw::Chance(NET_ODDS, NET_ODDS_OUT_OF, p.has_net_now),
                ) by {
                assert((log + person_draws(p)) =~= log.push(Draw::WideWord(p.id)).push(
                    Draw::Word(p.home.x),
                ).push(Draw::Word(p.home.y)).push(Draw::Flip(p.has_car)).push(
                    Draw::Chance(NET_ODDS, NET_ODDS_OUT_OF, p.has_net_now),
                ));
            }
        }
        let id: u128 = rng.wide_word();
        let x: u64 = rng.word();
        let y: u64 = rng.word();
        let has_car = rng.flip();
        let online = rng.chance(NET_ODDS, NET_ODDS_OUT_OF);
        Person::of_draws(id, x, y, has_car, online)
    }
}

impl City {
    /// A city with the radius selected by one fair draw, and identifier and
    /// centre drawn independently, in this order. The city is made of
    /// exactly these four draws.
    pub fn new(rng: &mut RandomSource) -> (city: City)
        ensures
            city.radius == CAR_RADIUS || city.radius == BIKE_RADIUS,
            final(rng).drawn() == old(rng).drawn() + city_draws(city),
    {
        proof {
            assert forall|log: Seq<Draw>, c: City| #[trigger]
                (log + city_draws(c)) == log.push(Draw::Flip(c.radius == CAR_RADIUS)).push(
                    Draw::WideWord(c.id),
                ).push(Draw::Word(c.center.x)).push(Draw::Word(c.center.y)) by {
                assert((log + city_draws(c)) =~= log.push(Draw::Flip(c.radius == CAR_RADIUS)).push(
                    Draw::WideWord(c.id),
                ).push(Draw::Word(c.center.x)).push(Draw::Word(c.center.y)));
            }
        }
        let drives = rng.flip();
        let id: u128 = rng.wide_word();
        let x: u64 = rng.word();
        let y: u64 = rng.word();
        City { id, center: Location { x, y }, radius: radius_of_draw(drives) }
    }
}

} // verus!
