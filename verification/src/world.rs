//! The world: cities settled one after the other and chained together in
//! the order of their generation.

use vstd::prelude::*;
use crate::builder::{
    after_pass, all_known, city_links, city_ran, city_stalled_on_record, extended_by, knows_all,
    lemma_rows_frame, lemma_rows_record_frame, populate_city, record_after_city, settled,
    BuildError, Resident, Wiring, BRIDGE_HOURS, LOCAL_HOURS, SHORTCUT_HOURS,
};
use crate::entity::{city_draws, City, Person, BIKE_RADIUS, CAR_RADIUS};
use crate::graph::{ContactGraph, Link, CAPACITY};
use crate::random::{
    grown_from, lemma_grown_twice, lemma_missed_earlier, missed_since, Draw, RandomSource,
};

verus! {

/// Number of cities in the standard configuration.
pub const CITY_COUNT: usize = 10;

/// Population of a small city in the standard configuration.
pub const SMALL_CITY: usize = 10000;

/// Population of a large city in the standard configuration.
pub const LARGE_CITY: usize = 300000;

/// A city with its residents in the order of their generation. The first
/// resident is the city's entry point.
pub struct CityRoster {
    pub city: City,
    pub residents: Vec<Resident>,
}

/// How many cities to build, and the two sizes that a city can have.
#[derive(Clone, Copy, Debug, PartialEq, Eq, Structural)]
pub struct WorldPlan {
    pub cities: usize,
    pub small_city: usize,
    pub large_city: usize,
}

/// The built graph and the roster of every city, in generation order.
pub struct World {
    pub graph: ContactGraph,
    pub rosters: Vec<CityRoster>,
}

/// The residents of every city, city by city.
pub open spec fn rolls(rosters: Seq<CityRoster>) -> Seq<Seq<Resident>> {
    Seq::new(rosters.len(), |c: int| rosters[c].residents@)
}

/// Whether some resident owns a car.
pub open spec fn has_driver(roll: Seq<Resident>) -> bool {
    exists|k: int| 0 <= k < roll.len() && (#[trigger] roll[k]).person.has_car
}

/// The links after the first `upto` residents of a city have been handled:
/// each car owner among them has a bridge to `entry`.
pub open spec fn bridged_row(links: Seq<Link>, roll: Seq<Resident>, entry: u32, upto: nat) -> Seq<
    Link,
>
    decreases upto,
{
    if upto == 0 {
        links
    } else {
        let before = bridged_row(links, roll, entry, (upto - 1) as nat);
        if roll[upto - 1].person.has_car {
            before.push((roll[upto - 1].node, entry, BRIDGE_HOURS))
        } else {
            before
        }
    }
}

/// The links after the first `upto` cities have each been bridged to the
/// city generated next.
pub open spec fn bridged(links: Seq<Link>, rolls: Seq<Seq<Resident>>, upto: nat) -> Seq<Link>
    decreases upto,
{
    if upto == 0 {
        links
    } else {
        bridged_row(
            bridged(links, rolls, (upto - 1) as nat),
            rolls[upto - 1],
            entry_of(rolls[upto as int]),
            rolls[upto - 1].len(),
        )
    }
}

/// The node that receives the car owners of the city generated before: the
/// first resident.
pub open spec fn entry_of(roll: Seq<Resident>) -> u32 {
    if roll.len() > 0 {
        roll[0].node
    } else {
        0
    }
}

/// The number of cities that have a city generated after them.
pub open spec fn spans(rolls: Seq<Seq<Resident>>) -> nat {
    if rolls.len() == 0 {
        0
    } else {
        (rolls.len() - 1) as nat
    }
}

/// Whether every resident of every city names one of the first `nodes`
/// handles.
pub open spec fn all_rolls_known(rolls: Seq<Seq<Resident>>, nodes: nat) -> bool {
    forall|c: int| 0 <= c < rolls.len() ==> all_known(#[trigger] rolls[c], nodes)
}

/// Whether some city has a car owner while the city generated next has
/// nobody to receive them.
pub open spec fn stranded_drivers(rolls: Seq<Seq<Resident>>) -> bool {
    exists|c: int|
        0 <= c && c + 1 < rolls.len() && has_driver(#[trigger] rolls[c]) && rolls[c + 1].len() == 0
}

/// What keeps the cities from being bridged at all, if anything does.
pub open spec fn bridge_fault(rolls: Seq<Seq<Resident>>, nodes: nat) -> Option<BuildError> {
    if !all_rolls_known(rolls, nodes) {
        Some(BuildError::UnknownNode)
    } else if stranded_drivers(rolls) {
        Some(BuildError::EmptyCity)
    } else {
        None
    }
}

/// The bridges of a city only append links, of the bridge weight, and the
/// more residents are handled the more there are.
pub proof fn lemma_bridged_row(links: Seq<Link>, roll: Seq<Resident>, entry: u32, upto: nat, more: nat)
    requires
        upto <= more,
    ensures
        extended_by(links, bridged_row(links, roll, entry, upto), BRIDGE_HOURS),
        bridged_row(links, roll, entry, upto).len() <= bridged_row(links, roll, entry, more).len(),
        !has_driver(roll) && more <= roll.len() ==> bridged_row(links, roll, entry, more) == links,
    decreases more,
{
    if upto > 0 {
        lemma_bridged_row(links, roll, entry, (upto - 1) as nat, (upto - 1) as nat);
    }
    if more > upto {
        lemma_bridged_row(links, roll, entry, upto, (more - 1) as nat);
    }
    if more > 0 && !has_driver(roll) && more <= roll.len() {
        lemma_bridged_row(links, roll, entry, 0, (more - 1) as nat);
        assert(!roll[more - 1].person.has_car);
    }
}

/// Bridging only appends links, of the bridge weight, and the more cities
/// are handled the more there are.
pub proof fn lemma_bridged(links: Seq<Link>, rolls: Seq<Seq<Resident>>, upto: nat, more: nat)
    requires
        upto <= more,
    ensures
        extended_by(links, bridged(links, rolls, upto), BRIDGE_HOURS),
        bridged(links, rolls, upto).len() <= bridged(links, rolls, more).len(),
    decreases more,
{
    if upto > 0 {
        lemma_bridged(links, rolls, (upto - 1) as nat, (upto - 1) as nat);
        lemma_bridged_row(
            bridged(links, rolls, (upto - 1) as nat),
            rolls[upto - 1],
            entry_of(rolls[upto as int]),
            rolls[upto - 1].len(),
            rolls[upto - 1].len(),
        );
    }
    if more > upto {
        lemma_bridged(links, rolls, upto, (more - 1) as nat);
        lemma_bridged_row(
            bridged(links, rolls, (more - 1) as nat),
            rolls[more - 1],
            entry_of(rolls[more as int]),
            0,
            rolls[more - 1].len(),
        );
    }
}

/// Whether some resident owns a car.
pub fn drives(residents: &Vec<Resident>) -> (found: bool)
    ensures
        found == has_driver(residents@),
{
    let mut k: usize = 0;
    while k < residents.len()
        invariant
            k <= residents.len(),
            forall|j: int| 0 <= j < k ==> !(#[trigger] residents@[j]).person.has_car,
        decreases residents.len() - k,
    {
        if residents[k].person.has_car {
            return true;
        }
        k += 1;
    }
    false
}

/// Finds what keeps the cities from being bridged, if anything does.
pub fn find_bridge_fault(graph: &ContactGraph, rosters: &Vec<CityRoster>) -> (fault: Option<
    BuildError,
>)
    ensures
        fault == bridge_fault(rolls(rosters@), graph.people().len()),
{
    let mut c: usize = 0;
    while c < rosters.len()
        invariant
            c <= rosters.len(),
            forall|d: int|
                0 <= d < c ==> all_known(#[trigger] rolls(rosters@)[d], graph.people().len()),
        decreases rosters.len() - c,
    {
        if !knows_all(graph, &rosters[c].residents) {
            assert(!all_known(rolls(rosters@)[c as int], graph.people().len()));
            return Some(BuildError::UnknownNode);
        }
        c += 1;
    }
    let last = if rosters.len() == 0 { 0 } else { rosters.len() - 1 };
    let mut c: usize = 0;
    while c < last
        invariant
            c <= last,
            last == spans(rolls(rosters@)),
            all_rolls_known(rolls(rosters@), graph.people().len()),
            forall|d: int|
                0 <= d < c && d + 1 < rosters.len() ==> !(has_driver(#[trigger] rolls(rosters@)[d])
                    && rolls(rosters@)[d + 1].len() == 0),
        decreases last - c,
    {
        if rosters[c + 1].residents.len() == 0 && drives(&rosters[c].residents) {
            assert(has_driver(rolls(rosters@)[c as int]) && rolls(rosters@)[c + 1].len() == 0);
            return Some(BuildError::EmptyCity);
        }
        c += 1;
    }
    None
}

/// Chains the cities in generation order: every car owner of a city gets a
/// bridge to the entry point of the city generated next, its first
/// resident. Nothing leads back from the later city but the same link.
pub fn bridge_cities(graph: &mut ContactGraph, rosters: &Vec<CityRoster>) -> (outcome: Result<
    (),
    BuildError,
>)
    ensures
        final(graph).people() == old(graph).people(),
        extended_by(old(graph).links(), final(graph).links(), BRIDGE_HOURS),
        bridge_fault(rolls(rosters@), old(graph).people().len()) is Some ==> outcome is Err
            && outcome->Err_0 == bridge_fault(rolls(rosters@), old(graph).people().len())->0
            && final(graph).links() == old(graph).links(),
        bridge_fault(rolls(rosters@), old(graph).people().len()) is None ==> (match outcome {
            Ok(_) => final(graph).links() == bridged(
                old(graph).links(),
                rolls(rosters@),
                spans(rolls(rosters@)),
            ),
            Err(e) => e == BuildError::EdgeLimit && final(graph).links().len() >= CAPACITY
                && bridged(old(graph).links(), rolls(rosters@), spans(rolls(rosters@))).len()
                > CAPACITY,
        }),
{
    match find_bridge_fault(graph, rosters) {
        Some(e) => {
            return Err(e);
        },
        None => {},
    }
    let ghost base = graph.links();
    let ghost all = rolls(rosters@);
    let last = if rosters.len() == 0 { 0 } else { rosters.len() - 1 };
    let mut c: usize = 0;
    while c < last
        invariant
            c <= last,
            last == spans(all),
            all == rolls(rosters@),
            base == old(graph).links(),
            graph.people() == old(graph).people(),
            bridge_fault(all, graph.people().len()) is None,
            graph.links() == bridged(base, all, c as nat),
        decreases last - c,
    {
        let from = &rosters[c].residents;
        let to = &rosters[c + 1].residents;
        let ghost row_base = graph.links();
        proof {
            assert(all[c as int] == from@);
            assert(all[c + 1] == to@);
            assert(all_known(all[c as int], graph.people().len()));
            assert(all_known(all[c + 1], graph.people().len()));
        }
        if to.len() == 0 {
            proof {
                assert(!has_driver(all[c as int]));
                lemma_bridged_row(row_base, from@, entry_of(to@), 0, from@.len());
            }
        } else {
            let entry = to[0].node;
            let mut k: usize = 0;
            while k < from.len()
                invariant
                    k <= from.len(),
                    c < last,
                    last == spans(all),
                    all == rolls(rosters@),
                    bridge_fault(all, graph.people().len()) is None,
                    all[c as int] == from@,
                    all[c + 1] == to@,
                    to@.len() > 0,
                    entry == entry_of(to@),
                    entry < graph.people().len(),
                    all_known(from@, graph.people().len()),
                    base == old(graph).links(),
                    row_base == bridged(base, all, c as nat),
                    graph.people() == old(graph).people(),
                    graph.links() == bridged_row(row_base, from@, entry, k as nat),
                decreases from.len() - k,
            {
                if from[k].person.has_car {
                    match graph.add_edge(from[k].node, entry, BRIDGE_HOURS) {
                        Ok(_) => {},
                        Err(_) => {
                            proof {
                                lemma_bridged(base, all, c as nat, c as nat);
                                lemma_bridged_row(row_base, from@, entry, k as nat, k as nat);
                                lemma_bridged_row(
                                    row_base,
                                    from@,
                                    entry,
                                    (k + 1) as nat,
                                    from@.len(),
                                );
                                lemma_bridged(base, all, (c + 1) as nat, spans(all));
                            }
                            return Err(BuildError::EdgeLimit);
                        },
                    }
                }
                k += 1;
            }
        }
        c += 1;
    }
    proof {
        lemma_bridged(base, all, spans(all), spans(all));
    }
    Ok(())
}

/// The number of residents in the first `upto` cities.
pub open spec fn offset(rolls: Seq<Seq<Resident>>, upto: nat) -> nat
    decreases upto,
{
    if upto == 0 {
        0
    } else {
        offset(rolls, (upto - 1) as nat) + rolls[upto - 1].len()
    }
}

/// Whether the people of the graph are exactly the residents of the cities,
/// city after city, each resident naming the node that carries them.
pub open spec fn census(people: Seq<Person>, rolls: Seq<Seq<Resident>>) -> bool {
    &&& people.len() == offset(rolls, rolls.len())
    &&& forall|c: int, k: int|
        0 <= c < rolls.len() && 0 <= k < rolls[c].len() ==> (#[trigger] rolls[c][k]).node == offset(
            rolls,
            c as nat,
        ) + k && people[offset(rolls, c as nat) + k] == rolls[c][k].person
}

/// The draws of one city among the draws of all cities.
pub open spec fn draws_in_city(draws: spec_fn(int, int, int) -> bool, c: int) -> spec_fn(
    int,
    int,
) -> bool {
    |i: int, j: int| draws(c, i, j)
}

/// The links of the first `upto` cities, each wired within itself by the
/// three rules in turn, one city after the other.
pub open spec fn cities_links(
    rolls: Seq<Seq<Resident>>,
    local_draws: spec_fn(int, int, int) -> bool,
    closure_draws: spec_fn(int, int, int) -> bool,
    upto: nat,
) -> Seq<Link>
    decreases upto,
{
    if upto == 0 {
        Seq::empty()
    } else {
        city_links(
            cities_links(rolls, local_draws, closure_draws, (upto - 1) as nat),
            rolls[upto - 1],
            draws_in_city(local_draws, upto - 1),
            draws_in_city(closure_draws, upto - 1),
        )
    }
}

/// The links of a world: those of its cities, then the bridges.
pub open spec fn world_links(
    rolls: Seq<Seq<Resident>>,
    local_draws: spec_fn(int, int, int) -> bool,
    closure_draws: spec_fn(int, int, int) -> bool,
) -> Seq<Link> {
    bridged(cities_links(rolls, local_draws, closure_draws, rolls.len()), rolls, spans(rolls))
}

/// The links of a city depend on the draws pair by pair only.
pub proof fn lemma_city_frame(
    links: Seq<Link>,
    roll: Seq<Resident>,
    l1: spec_fn(int, int) -> bool,
    c1: spec_fn(int, int) -> bool,
    l2: spec_fn(int, int) -> bool,
    c2: spec_fn(int, int) -> bool,
)
    requires
        forall|i: int, j: int| #[trigger] l1(i, j) == l2(i, j),
        forall|i: int, j: int| #[trigger] c1(i, j) == c2(i, j),
    ensures
        city_links(links, roll, l1, c1) == city_links(links, roll, l2, c2),
{
    lemma_rows_frame(Wiring::Local, links, roll, l1, l2, roll.len());
    lemma_rows_frame(
        Wiring::Closure,
        after_pass(Wiring::Local, links, roll, l1),
        roll,
        c1,
        c2,
        roll.len(),
    );
}

/// The links of a prefix of the cities depend on those cities and on their
/// draws only.
pub proof fn lemma_cities_frame(
    rolls: Seq<Seq<Resident>>,
    longer: Seq<Seq<Resident>>,
    l1: spec_fn(int, int, int) -> bool,
    c1: spec_fn(int, int, int) -> bool,
    l2: spec_fn(int, int, int) -> bool,
    c2: spec_fn(int, int, int) -> bool,
    upto: nat,
)
    requires
        upto <= rolls.len() <= longer.len(),
        forall|c: int| 0 <= c < upto ==> #[trigger] rolls[c] == longer[c],
        forall|c: int, i: int, j: int| 0 <= c < upto ==> #[trigger] l1(c, i, j) == l2(c, i, j),
        forall|c: int, i: int, j: int| 0 <= c < upto ==> #[trigger] c1(c, i, j) == c2(c, i, j),
    ensures
        cities_links(rolls, l1, c1, upto) == cities_links(longer, l2, c2, upto),
    decreases upto,
{
    if upto > 0 {
        lemma_cities_frame(rolls, longer, l1, c1, l2, c2, (upto - 1) as nat);
        assert(rolls[upto - 1] == longer[upto - 1]);
        assert forall|i: int, j: int| #[trigger]
            draws_in_city(l1, upto - 1)(i, j) == draws_in_city(l2, upto - 1)(i, j) by {
            assert(l1(upto - 1, i, j) == l2(upto - 1, i, j));
        }
        assert forall|i: int, j: int| #[trigger]
            draws_in_city(c1, upto - 1)(i, j) == draws_in_city(c2, upto - 1)(i, j) by {
            assert(c1(upto - 1, i, j) == c2(upto - 1, i, j));
        }
        lemma_city_frame(
            cities_links(rolls, l1, c1, (upto - 1) as nat),
            rolls[upto - 1],
            draws_in_city(l1, upto - 1),
            draws_in_city(c1, upto - 1),
            draws_in_city(l2, upto - 1),
            draws_in_city(c2, upto - 1),
        );
    }
}

/// Whether every link is a local or a shortcut link.
pub open spec fn within_cities(links: Seq<Link>) -> bool {
    forall|k: int|
        0 <= k < links.len() ==> (#[trigger] links[k]).2 == LOCAL_HOURS || links[k].2
            == SHORTCUT_HOURS
}

/// The larger of the two city sizes.
pub open spec fn largest(plan: WorldPlan) -> nat {
    if plan.small_city >= plan.large_city {
        plan.small_city as nat
    } else {
        plan.large_city as nat
    }
}

/// Whether no draw can place an empty city behind one with residents: there
/// is one city at most, or the two sizes are both zero or both above it.
pub open spec fn no_empty_trap(plan: WorldPlan) -> bool {
    plan.cities <= 1 || (plan.small_city == 0) == (plan.large_city == 0)
}

/// Whether the graph can hold the nodes of this plan however the draws fall.
pub open spec fn nodes_fit(plan: WorldPlan) -> bool {
    plan.cities * largest(plan) <= CAPACITY
}

/// Whether the graph is sure to hold a world of this plan however the draws
/// fall: no car owner can be left without an entry point, and the nodes
/// and links of cities that all have the larger size, linked pair by pair
/// under every rule, stay within the capacity.
pub open spec fn fits(plan: WorldPlan) -> bool {
    &&& no_empty_trap(plan)
    &&& nodes_fit(plan)
    &&& plan.cities * (3 * largest(plan) * largest(plan)) + plan.cities * largest(plan)
        <= CAPACITY
}

/// Whether every city has one of the two sizes of the plan.
pub open spec fn sized(plan: WorldPlan, rolls: Seq<Seq<Resident>>) -> bool {
    forall|c: int|
        0 <= c < rolls.len() ==> (#[trigger] rolls[c]).len() == plan.small_city || rolls[c].len()
            == plan.large_city
}

/// Whether the residents name the nodes in the order of their generation,
/// city after city.
pub open spec fn numbered(rolls: Seq<Seq<Resident>>) -> bool {
    forall|c: int, k: int|
        0 <= c < rolls.len() && 0 <= k < rolls[c].len() ==> (#[trigger] rolls[c][k]).node == offset(
            rolls,
            c as nat,
        ) + k
}

/// Whether `rolls` can be the first cities of a world of the plan, in
/// generation order, under the size draws `smalls`: every city has the
/// size that its draw selected, and the residents name the nodes in the
/// order of their generation. `cities` are all the cities of the plan.
pub open spec fn cities_built(
    plan: WorldPlan,
    cities: Seq<City>,
    rolls: Seq<Seq<Resident>>,
    smalls: Seq<bool>,
) -> bool {
    &&& cities.len() == plan.cities
    &&& rolls.len() <= plan.cities
    &&& smalls.len() == rolls.len()
    &&& forall|c: int|
        0 <= c < rolls.len() ==> (#[trigger] rolls[c]).len() == size_for(plan, smalls[c])
    &&& numbered(rolls)
}

/// Whether the cities `rolls` were built and the city due next, of the size
/// that the draw `small` selected, no longer fits in the graph. The record
/// ends with that draw.
pub open spec fn overfull_at(
    plan: WorldPlan,
    cities: Seq<City>,
    rolls: Seq<Seq<Resident>>,
    smalls: Seq<bool>,
    local_draws: spec_fn(int, int, int) -> bool,
    closure_draws: spec_fn(int, int, int) -> bool,
    small: bool,
    log0: Seq<Draw>,
    log1: Seq<Draw>,
) -> bool {
    &&& rolls.len() < plan.cities
    &&& cities_built(plan, cities, rolls, smalls)
    &&& offset(rolls, rolls.len()) + size_for(plan, small) > CAPACITY
    &&& log1 == world_record(log0, cities, rolls, smalls, local_draws, closure_draws).push(
        Draw::Flip(small),
    )
}

/// Whether the cities `rolls` were built under the given draws and the
/// wiring of the city due next, with the residents `newcomers`, stalled on
/// a full graph with the links `after`. The record holds the draws up to
/// the stalled pair.
pub open spec fn stalled_in_city(
    plan: WorldPlan,
    cities: Seq<City>,
    rolls: Seq<Seq<Resident>>,
    smalls: Seq<bool>,
    local_draws: spec_fn(int, int, int) -> bool,
    closure_draws: spec_fn(int, int, int) -> bool,
    small: bool,
    newcomers: Seq<Resident>,
    after: Seq<Link>,
    log0: Seq<Draw>,
    log1: Seq<Draw>,
) -> bool {
    &&& rolls.len() < plan.cities
    &&& cities_built(plan, cities, rolls, smalls)
    &&& newcomers.len() == size_for(plan, small)
    &&& numbered(rolls.push(newcomers))
    &&& city_stalled_on_record(
        cities_links(rolls, local_draws, closure_draws, rolls.len()),
        after,
        newcomers,
        world_record(log0, cities, rolls, smalls, local_draws, closure_draws).push(
            Draw::Flip(small),
        ),
        log1,
    )
}

/// Whether all cities were built under the given draws and the bridging
/// then failed with `e`: a car owner had no entry point to drive to, or the
/// bridges no longer fit in the graph. The record is that of the cities.
pub open spec fn failed_at_bridges(
    plan: WorldPlan,
    cities: Seq<City>,
    rolls: Seq<Seq<Resident>>,
    smalls: Seq<bool>,
    local_draws: spec_fn(int, int, int) -> bool,
    closure_draws: spec_fn(int, int, int) -> bool,
    e: BuildError,
    log0: Seq<Draw>,
    log1: Seq<Draw>,
) -> bool {
    &&& rolls.len() == plan.cities
    &&& cities_built(plan, cities, rolls, smalls)
    &&& log1 == world_record(log0, cities, rolls, smalls, local_draws, closure_draws)
    &&& if stranded_drivers(rolls) {
        e == BuildError::EmptyCity
    } else {
        e == BuildError::EdgeLimit && world_links(rolls, local_draws, closure_draws).len()
            > CAPACITY
    }
}

/// Whether a world of the plan `plan` can fail to be built with the error
/// `e`, the record of draws `log0` having become `log1`. The nodes run out
/// where a city that is due does not fit. The links run out where the
/// wiring of a city, or the bridging, stalls on a full graph. A car owner
/// is left without an entry point only where one of the two sizes is zero.
/// No resident ever names an unknown node.
pub open spec fn world_failed(plan: WorldPlan, e: BuildError, log0: Seq<Draw>, log1: Seq<Draw>) -> bool {
    ||| e == BuildError::NodeLimit && exists|
        cities: Seq<City>,
        rolls: Seq<Seq<Resident>>,
        smalls: Seq<bool>,
        local_draws: spec_fn(int, int, int) -> bool,
        closure_draws: spec_fn(int, int, int) -> bool,
        small: bool,
    | #[trigger]
        overfull_at(plan, cities, rolls, smalls, local_draws, closure_draws, small, log0, log1)
    ||| e == BuildError::EdgeLimit && exists|
        cities: Seq<City>,
        rolls: Seq<Seq<Resident>>,
        smalls: Seq<bool>,
        local_draws: spec_fn(int, int, int) -> bool,
        closure_draws: spec_fn(int, int, int) -> bool,
        small: bool,
        newcomers: Seq<Resident>,
        after: Seq<Link>,
    | #[trigger]
        stalled_in_city(
            plan,
            cities,
            rolls,
            smalls,
            local_draws,
            closure_draws,
            small,
            newcomers,
            after,
            log0,
            log1,
        )
    ||| (e == BuildError::EdgeLimit || (e == BuildError::EmptyCity && !no_empty_trap(plan)))
        && exists|
        cities: Seq<City>,
        rolls: Seq<Seq<Resident>>,
        smalls: Seq<bool>,
        local_draws: spec_fn(int, int, int) -> bool,
        closure_draws: spec_fn(int, int, int) -> bool,
    | #[trigger]
        failed_at_bridges(plan, cities, rolls, smalls, local_draws, closure_draws, e, log0, log1)
}

/// Whether `world` is a world of the plan `plan`.
pub open spec fn built(plan: WorldPlan, world: World) -> bool {
    &&& world.rosters@.len() == plan.cities
    &&& forall|c: int|
        0 <= c < world.rosters@.len() ==> {
            let roster = #[trigger] world.rosters@[c];
            &&& roster.city.radius == CAR_RADIUS || roster.city.radius == BIKE_RADIUS
            &&& roster.residents@.len() == plan.small_city || roster.residents@.len()
                == plan.large_city
        }
    &&& census(world.graph.people(), rolls(world.rosters@))
    &&& !stranded_drivers(rolls(world.rosters@))
    &&& exists|
        local_draws: spec_fn(int, int, int) -> bool,
        closure_draws: spec_fn(int, int, int) -> bool,
    |
        world.graph.links() == #[trigger] world_links(
            rolls(world.rosters@),
            local_draws,
            closure_draws,
        )
    &&& forall|k: int|
        0 <= k < world.graph.links().len() ==> {
            let hours = (#[trigger] world.graph.links()[k]).2;
            hours == SHORTCUT_HOURS || hours == LOCAL_HOURS || hours == BRIDGE_HOURS
        }
}

/// The residents of a prefix of the cities do not depend on the cities
/// after it, and count no more than all residents.
pub proof fn lemma_offset(rolls: Seq<Seq<Resident>>, more: Seq<Resident>, upto: nat)
    requires
        upto <= rolls.len(),
    ensures
        offset(rolls.push(more), upto) == offset(rolls, upto),
        offset(rolls, upto) <= offset(rolls, rolls.len()),
    decreases rolls.len() - upto,
{
    lemma_offset_prefix(rolls, more, upto);
    if upto < rolls.len() {
        lemma_offset(rolls, more, upto + 1);
    }
}

proof fn lemma_offset_prefix(rolls: Seq<Seq<Resident>>, more: Seq<Resident>, upto: nat)
    requires
        upto <= rolls.len(),
    ensures
        offset(rolls.push(more), upto) == offset(rolls, upto),
    decreases upto,
{
    if upto > 0 {
        lemma_offset_prefix(rolls, more, (upto - 1) as nat);
    }
}

/// Bridging adds at most one link per resident of the cities handled.
pub proof fn lemma_bridged_len(links: Seq<Link>, rolls: Seq<Seq<Resident>>, upto: nat)
    ensures
        bridged(links, rolls, upto).len() <= links.len() + offset(rolls, upto),
    decreases upto,
{
    if upto > 0 {
        lemma_bridged_len(links, rolls, (upto - 1) as nat);
        lemma_bridged_row_len(
            bridged(links, rolls, (upto - 1) as nat),
            rolls[upto - 1],
            entry_of(rolls[upto as int]),
            rolls[upto - 1].len(),
        );
    }
}

proof fn lemma_bridged_row_len(links: Seq<Link>, roll: Seq<Resident>, entry: u32, upto: nat)
    ensures
        bridged_row(links, roll, entry, upto).len() <= links.len() + upto,
    decreases upto,
{
    if upto > 0 {
        lemma_bridged_row_len(links, roll, entry, (upto - 1) as nat);
    }
}

/// A census of the cities is still one when a city of newcomers joins.
pub proof fn lemma_census_grows(
    people: Seq<Person>,
    rolls: Seq<Seq<Resident>>,
    grown: Seq<Person>,
    newcomers: Seq<Resident>,
)
    requires
        census(people, rolls),
        settled(people, grown, newcomers, newcomers.len()),
    ensures
        census(grown, rolls.push(newcomers)),
{
    let longer = rolls.push(newcomers);
    lemma_offset(rolls, newcomers, rolls.len());
    assert forall|c: int, k: int| 0 <= c < longer.len() && 0 <= k < longer[c].len() implies (
    #[trigger] longer[c][k]).node == offset(longer, c as nat) + k && grown[offset(longer, c as nat)
        + k] == longer[c][k].person by {
        lemma_offset(rolls, newcomers, c as nat);
        if c < rolls.len() {
            assert(longer[c] == rolls[c]);
            assert(rolls[c][k].node == offset(rolls, c as nat) + k);
            lemma_offset_step(rolls, c as nat);
        }
    }
}

proof fn lemma_offset_step(rolls: Seq<Seq<Resident>>, c: nat)
    requires
        c < rolls.len(),
    ensures
        offset(rolls, c) + rolls[c as int].len() <= offset(rolls, rolls.len()),
{
    lemma_offset(rolls, Seq::empty(), c + 1);
}

/// Under a census every resident names a node of the graph.
pub proof fn lemma_census_known(people: Seq<Person>, rolls: Seq<Seq<Resident>>)
    requires
        census(people, rolls),
    ensures
        all_rolls_known(rolls, people.len()),
{
    assert forall|c: int| 0 <= c < rolls.len() implies all_known(#[trigger] rolls[c], people.len()) by {
        lemma_offset_step(rolls, c as nat);
        assert forall|k: int| 0 <= k < rolls[c].len() implies (#[trigger] rolls[c][k]).node
            < people.len() by {}
    }
}

proof fn lemma_scale(c: nat, n: nat, unit: nat)
    requires
        c < n,
    ensures
        (c + 1) * unit == c * unit + unit,
        (c + 1) * unit <= n * unit,
{
    assert((c + 1) * unit == c * unit + unit) by (nonlinear_arith);
    assert((c + 1) * unit <= n * unit) by (nonlinear_arith)
        requires
            c + 1 <= n,
    ;
}

proof fn lemma_square(size: nat, most: nat)
    requires
        size <= most,
    ensures
        3 * size * size <= 3 * most * most,
{
    assert(size * size <= most * most) by (nonlinear_arith)
        requires
            size <= most,
    ;
    assert(3 * size * size == 3 * (size * size)) by (nonlinear_arith);
    assert(3 * most * most == 3 * (most * most)) by (nonlinear_arith);
}

/// The standard configuration: ten cities of ten thousand or three hundred
/// thousand residents.
pub open spec fn standard_plan() -> WorldPlan {
    WorldPlan { cities: CITY_COUNT, small_city: SMALL_CITY, large_city: LARGE_CITY }
}

impl WorldPlan {
    /// The standard configuration.
    pub fn standard() -> (plan: WorldPlan)
        ensures
            plan == standard_plan(),
    {
        WorldPlan { cities: CITY_COUNT, small_city: SMALL_CITY, large_city: LARGE_CITY }
    }

    /// The population that one fair draw selects for a city.
    pub fn city_size(&self, small: bool) -> (size: usize)
        ensures
            size == if small { self.small_city } else { self.large_city },
    {
        if small { self.small_city } else { self.large_city }
    }
}

impl CityRoster {
    /// One resident chosen uniformly, or `None` for a city without any.
    pub fn sample(&self, rng: &mut RandomSource) -> (resident: Option<Resident>)
        ensures
            self.residents@.len() == 0 ==> resident is None,
            self.residents@.len() > 0 ==> resident is Some && self.residents@.contains(
                resident->0,
            ),
            final(rng).drawn() == old(rng).drawn().push(
                Draw::Pick(self.residents@.len() as usize),
            ),
    {
        rng.pick(&self.residents)
    }

    /// The resident who receives the car owners of the city generated
    /// before: the first of the roster.
    pub fn entry_point(&self) -> (resident: Option<Resident>)
        ensures
            self.residents@.len() == 0 ==> resident is None,
            self.residents@.len() > 0 ==> resident == Some(self.residents@[0]),
            resident is Some ==> resident->0.node == entry_of(self.residents@),
    {
        if self.residents.len() == 0 {
            None
        } else {
            Some(self.residents[0])
        }
    }
}

/// The cities of the rosters, in generation order.
pub open spec fn cities_of(rosters: Seq<CityRoster>) -> Seq<City> {
    Seq::new(rosters.len(), |c: int| rosters[c].city)
}

/// The population that a fair draw selects for a city.
pub open spec fn size_for(plan: WorldPlan, small: bool) -> usize {
    if small {
        plan.small_city
    } else {
        plan.large_city
    }
}

/// The record of draws after the first `upto` cities have been generated:
/// behind the record `log` the draws that make each city, in order.
pub open spec fn founding_record(log: Seq<Draw>, cities: Seq<City>, upto: nat) -> Seq<Draw>
    decreases upto,
{
    if upto == 0 {
        log
    } else {
        founding_record(log, cities, (upto - 1) as nat) + city_draws(cities[upto - 1])
    }
}

/// The record of draws after the first `upto` cities have been settled and
/// wired: for each city in turn the fair draw that selects its size, then
/// the draws that make and wire its residents.
pub open spec fn populations_record(
    log: Seq<Draw>,
    rolls: Seq<Seq<Resident>>,
    smalls: Seq<bool>,
    local_draws: spec_fn(int, int, int) -> bool,
    closure_draws: spec_fn(int, int, int) -> bool,
    upto: nat,
) -> Seq<Draw>
    decreases upto,
{
    if upto == 0 {
        log
    } else {
        record_after_city(
            populations_record(log, rolls, smalls, local_draws, closure_draws, (upto - 1) as nat).push(
                Draw::Flip(smalls[upto - 1]),
            ),
            cities_links(rolls, local_draws, closure_draws, (upto - 1) as nat),
            rolls[upto - 1],
            draws_in_city(local_draws, upto - 1),
            draws_in_city(closure_draws, upto - 1),
        )
    }
}

/// The record of draws of a whole construction: the cities are generated
/// first, then each is settled and wired. Bridging draws nothing.
pub open spec fn world_record(
    log: Seq<Draw>,
    cities: Seq<City>,
    rolls: Seq<Seq<Resident>>,
    smalls: Seq<bool>,
    local_draws: spec_fn(int, int, int) -> bool,
    closure_draws: spec_fn(int, int, int) -> bool,
) -> Seq<Draw> {
    populations_record(
        founding_record(log, cities, cities.len()),
        rolls,
        smalls,
        local_draws,
        closure_draws,
        rolls.len(),
    )
}

/// Whether `world` was built under the given size draws and wiring draws:
/// every city has the size that its draw selected, the links are those
/// that the wiring draws make, and the record of draws `log0` has become
/// `log1` by exactly the draws of this construction.
pub open spec fn world_ran(
    plan: WorldPlan,
    world: World,
    smalls: Seq<bool>,
    local_draws: spec_fn(int, int, int) -> bool,
    closure_draws: spec_fn(int, int, int) -> bool,
    log0: Seq<Draw>,
    log1: Seq<Draw>,
) -> bool {
    &&& smalls.len() == world.rosters@.len()
    &&& forall|c: int|
        0 <= c < smalls.len() ==> (#[trigger] rolls(world.rosters@)[c]).len() == size_for(
            plan,
            smalls[c],
        )
    &&& world.graph.links() == world_links(rolls(world.rosters@), local_draws, closure_draws)
    &&& log1 == world_record(
        log0,
        cities_of(world.rosters@),
        rolls(world.rosters@),
        smalls,
        local_draws,
        closure_draws,
    )
}

/// Whether `world` was built by exactly the draws that turned the record
/// `log0` into `log1`: some size draws and wiring draws give both the
/// world and the record.
pub open spec fn world_drawn(plan: WorldPlan, world: World, log0: Seq<Draw>, log1: Seq<Draw>) -> bool {
    exists|
        smalls: Seq<bool>,
        local_draws: spec_fn(int, int, int) -> bool,
        closure_draws: spec_fn(int, int, int) -> bool,
    | #[trigger] world_ran(plan, world, smalls, local_draws, closure_draws, log0, log1)
}

proof fn lemma_founding_frame(log: Seq<Draw>, one: Seq<City>, other: Seq<City>, upto: nat)
    requires
        upto <= one.len() <= other.len(),
        forall|c: int| 0 <= c < upto ==> #[trigger] one[c] == other[c],
    ensures
        founding_record(log, one, upto) == founding_record(log, other, upto),
    decreases upto,
{
    if upto > 0 {
        lemma_founding_frame(log, one, other, (upto - 1) as nat);
        assert(one[upto - 1] == other[upto - 1]);
    }
}

/// The record of a city depends on the draws pair by pair only.
pub proof fn lemma_city_record_frame(
    log: Seq<Draw>,
    links: Seq<Link>,
    roll: Seq<Resident>,
    l1: spec_fn(int, int) -> bool,
    c1: spec_fn(int, int) -> bool,
    l2: spec_fn(int, int) -> bool,
    c2: spec_fn(int, int) -> bool,
)
    requires
        forall|i: int, j: int| #[trigger] l1(i, j) == l2(i, j),
        forall|i: int, j: int| #[trigger] c1(i, j) == c2(i, j),
    ensures
        record_after_city(log, links, roll, l1, c1) == record_after_city(log, links, roll, l2, c2),
{
    lemma_rows_frame(Wiring::Local, links, roll, l1, l2, roll.len());
    lemma_rows_record_frame(Wiring::Local, links, roll, l1, l2, roll.len());
    lemma_rows_record_frame(
        Wiring::Closure,
        after_pass(Wiring::Local, links, roll, l1),
        roll,
        c1,
        c2,
        roll.len(),
    );
}

/// The record of a prefix of the cities depends on those cities, their
/// size draws and their wiring draws only.
pub proof fn lemma_populations_frame(
    log: Seq<Draw>,
    rolls: Seq<Seq<Resident>>,
    longer: Seq<Seq<Resident>>,
    smalls: Seq<bool>,
    more_smalls: Seq<bool>,
    l1: spec_fn(int, int, int) -> bool,
    c1: spec_fn(int, int, int) -> bool,
    l2: spec_fn(int, int, int) -> bool,
    c2: spec_fn(int, int, int) -> bool,
    upto: nat,
)
    requires
        upto <= rolls.len() <= longer.len(),
        upto <= smalls.len() <= more_smalls.len(),
        forall|c: int| 0 <= c < upto ==> #[trigger] rolls[c] == longer[c],
        forall|c: int| 0 <= c < upto ==> #[trigger] smalls[c] == more_smalls[c],
        forall|c: int, i: int, j: int| 0 <= c < upto ==> #[trigger] l1(c, i, j) == l2(c, i, j),
        forall|c: int, i: int, j: int| 0 <= c < upto ==> #[trigger] c1(c, i, j) == c2(c, i, j),
    ensures
        populations_record(log, rolls, smalls, l1, c1, upto) == populations_record(
            log,
            longer,
            more_smalls,
            l2,
            c2,
            upto,
        ),
    decreases upto,
{
    if upto > 0 {
        let k = (upto - 1) as nat;
        lemma_populations_frame(log, rolls, longer, smalls, more_smalls, l1, c1, l2, c2, k);
        lemma_cities_frame(rolls, longer, l1, c1, l2, c2, k);
        assert(rolls[k as int] == longer[k as int]);
        assert(smalls[k as int] == more_smalls[k as int]);
        assert forall|i: int, j: int| #[trigger]
            draws_in_city(l1, k as int)(i, j) == draws_in_city(l2, k as int)(i, j) by {
            assert(l1(k as int, i, j) == l2(k as int, i, j));
        }
        assert forall|i: int, j: int| #[trigger]
            draws_in_city(c1, k as int)(i, j) == draws_in_city(c2, k as int)(i, j) by {
            assert(c1(k as int, i, j) == c2(k as int, i, j));
        }
        lemma_city_record_frame(
            populations_record(log, rolls, smalls, l1, c1, k).push(Draw::Flip(smalls[k as int])),
            cities_links(rolls, l1, c1, k),
            rolls[k as int],
            draws_in_city(l1, k as int),
            draws_in_city(c1, k as int),
            draws_in_city(l2, k as int),
            draws_in_city(c2, k as int),
        );
    }
}

/// The cities that do not fit in the graph are more than the plan allows
/// where the nodes of the plan fit.
pub proof fn lemma_overfull_needs_room(
    plan: WorldPlan,
    cities: Seq<City>,
    rolls: Seq<Seq<Resident>>,
    smalls: Seq<bool>,
    small: bool,
)
    requires
        rolls.len() < plan.cities,
        cities_built(plan, cities, rolls, smalls),
        offset(rolls, rolls.len()) + size_for(plan, small) > CAPACITY,
    ensures
        !nodes_fit(plan),
{
    lemma_offset_bound(plan, rolls, rolls.len());
    lemma_scale(rolls.len(), plan.cities as nat, largest(plan));
}

proof fn lemma_offset_bound(plan: WorldPlan, rolls: Seq<Seq<Resident>>, upto: nat)
    requires
        sized(plan, rolls),
        upto <= rolls.len(),
    ensures
        offset(rolls, upto) <= upto * largest(plan),
    decreases upto,
{
    if upto > 0 {
        lemma_offset_bound(plan, rolls, (upto - 1) as nat);
        assert(rolls[upto - 1].len() <= largest(plan));
        assert(upto * largest(plan) == (upto - 1) * largest(plan) + largest(plan))
            by (nonlinear_arith);
    } else {
        assert(0 * largest(plan) == 0) by (nonlinear_arith);
    }
}

/// Where no resident owns a car, bridging adds nothing.
pub proof fn lemma_bridged_without_cars(links: Seq<Link>, rolls: Seq<Seq<Resident>>, upto: nat)
    requires
        upto < rolls.len() || upto == 0,
        forall|c: int| 0 <= c < rolls.len() ==> !has_driver(#[trigger] rolls[c]),
    ensures
        bridged(links, rolls, upto) == links,
    decreases upto,
{
    if upto > 0 {
        lemma_bridged_without_cars(links, rolls, (upto - 1) as nat);
        lemma_bridged_row(
            links,
            rolls[upto - 1],
            entry_of(rolls[upto as int]),
            0,
            rolls[upto - 1].len(),
        );
    }
}

/// Builds a world: the cities are generated, each is settled with a
/// population of one of the two sizes, chosen by a fair draw, and wired
/// within itself, and the cities are then chained by their car owners.
/// Where every draw with odds comes out false, the world holds no link but
/// the bridges.
pub fn build_world(rng: &mut RandomSource, plan: WorldPlan) -> (outcome: Result<World, BuildError>)
    ensures
        outcome is Ok ==> built(plan, outcome->Ok_0),
        outcome is Ok ==> world_drawn(plan, outcome->Ok_0, old(rng).drawn(), final(rng).drawn()),
        outcome is Err ==> world_failed(
            plan,
            outcome->Err_0,
            old(rng).drawn(),
            final(rng).drawn(),
        ),
        nodes_fit(plan) ==> !(outcome is Err && outcome->Err_0 == BuildError::NodeLimit),
        fits(plan) ==> outcome is Ok,
        grown_from(old(rng).drawn(), final(rng).drawn()),
        nodes_fit(plan) && no_empty_trap(plan) && missed_since(
            final(rng).drawn(),
            old(rng).drawn().len(),
        ) ==> outcome is Ok && outcome->Ok_0.graph.links() == bridged(
            Seq::<Link>::empty(),
            rolls(outcome->Ok_0.rosters@),
            spans(rolls(outcome->Ok_0.rosters@)),
        ),
{
    let ghost log0 = rng.drawn();
    let mut cities: Vec<City> = Vec::new();
    let mut c: usize = 0;
    while c < plan.cities
        invariant
            c <= plan.cities,
            cities@.len() == c,
            forall|d: int|
                0 <= d < c ==> (#[trigger] cities@[d]).radius == CAR_RADIUS || cities@[d].radius
                    == BIKE_RADIUS,
            grown_from(log0, rng.drawn()),
            rng.drawn() == founding_record(log0, cities@, c as nat),
        decreases plan.cities - c,
    {
        let ghost record = rng.drawn();
        let ghost founded = cities@;
        cities.push(City::new(rng));
        proof {
            lemma_grown_twice(log0, record, rng.drawn());
            lemma_founding_frame(log0, founded, cities@, c as nat);
        }
        c += 1;
    }
    let ghost log_founded = rng.drawn();
    let mut graph = ContactGraph::new();
    let mut rosters: Vec<CityRoster> = Vec::new();
    let ghost most = largest(plan);
    let ghost mut local_draws: spec_fn(int, int, int) -> bool = |c: int, i: int, j: int| false;
    let ghost mut closure_draws: spec_fn(int, int, int) -> bool = |c: int, i: int, j: int| false;
    let ghost mut smalls: Seq<bool> = Seq::empty();
    let mut c: usize = 0;
    proof {
        assert(0 * most == 0) by (nonlinear_arith);
        assert(0 * (3 * most * most) == 0) by (nonlinear_arith);
    }
    while c < plan.cities
        invariant
            c <= plan.cities,
            cities@.len() == plan.cities,
            most == largest(plan),
            rosters@.len() == c,
            forall|d: int|
                0 <= d < plan.cities ==> (#[trigger] cities@[d]).radius == CAR_RADIUS
                    || cities@[d].radius == BIKE_RADIUS,
            forall|d: int|
                0 <= d < c ==> (#[trigger] rosters@[d]).city == cities@[d] && (
                rosters@[d].residents@.len() == plan.small_city || rosters@[d].residents@.len()
                    == plan.large_city),
            sized(plan, rolls(rosters@)),
            census(graph.people(), rolls(rosters@)),
            within_cities(graph.links()),
            graph.links() == cities_links(rolls(rosters@), local_draws, closure_draws, c as nat),
            graph.people().len() <= c * most,
            fits(plan) ==> graph.links().len() <= c * (3 * most * most),
            log0 == old(rng).drawn(),
            grown_from(log0, rng.drawn()),
            nodes_fit(plan) && missed_since(rng.drawn(), log0.len()) ==> graph.links()
                == Seq::<Link>::empty(),
            log_founded == founding_record(log0, cities@, cities@.len()),
            smalls.len() == c,
            forall|d: int|
                0 <= d < c ==> (#[trigger] rolls(rosters@)[d]).len() == size_for(plan, smalls[d]),
            rng.drawn() == populations_record(
                log_founded,
                rolls(rosters@),
                smalls,
                local_draws,
                closure_draws,
                c as nat,
            ),
        decreases plan.cities - c,
    {
        let ghost record = rng.drawn();
        let small = rng.flip();
        let size = plan.city_size(small);
        let ghost people0 = graph.people();
        let ghost links0 = graph.links();
        let ghost rolls0 = rolls(rosters@);
        let ghost flipped = rng.drawn();
        proof {
            lemma_scale(c as nat, plan.cities as nat, most);
            if fits(plan) {
                lemma_scale(c as nat, plan.cities as nat, 3 * most * most);
                lemma_square(size as nat, most);
            }
            assert(grown_from(record, flipped));
            lemma_grown_twice(log0, record, flipped);
            assert(size <= most);
        }
        let residents = match populate_city(&mut graph, rng, size) {
            Ok(residents) => residents,
            Err(e) => {
                proof {
                    lemma_grown_twice(log0, flipped, rng.drawn());
                    if nodes_fit(plan) && missed_since(rng.drawn(), log0.len()) {
                        assert(people0.len() + size <= CAPACITY);
                        assert(missed_since(rng.drawn(), flipped.len()));
                    }
                    assert(cities_built(plan, cities@, rolls0, smalls));
                    if e == BuildError::NodeLimit {
                        assert(overfull_at(
                            plan,
                            cities@,
                            rolls0,
                            smalls,
                            local_draws,
                            closure_draws,
                            small,
                            log0,
                            rng.drawn(),
                        ));
                    } else {
                        let newcomers = choose|newcomers: Seq<Resident>| #[trigger]
                            settled(people0, graph.people(), newcomers, size as nat)
                                && city_stalled_on_record(
                                links0,
                                graph.links(),
                                newcomers,
                                flipped,
                                rng.drawn(),
                            );
                        lemma_census_grows(people0, rolls0, graph.people(), newcomers);
                        assert(stalled_in_city(
                            plan,
                            cities@,
                            rolls0,
                            smalls,
                            local_draws,
                            closure_draws,
                            small,
                            newcomers,
                            graph.links(),
                            log0,
                            rng.drawn(),
                        ));
                    }
                }
                return Err(e);
            },
        };
        proof {
            lemma_grown_twice(log0, flipped, rng.drawn());
            if nodes_fit(plan) && missed_since(rng.drawn(), log0.len()) {
                lemma_missed_earlier(record, rng.drawn(), log0.len());
                lemma_grown_twice(record, flipped, rng.drawn());
            }
            lemma_census_grows(people0, rolls0, graph.people(), residents@);
            let rolls1 = rolls0.push(residents@);
            assert(rolls(rosters@.push(CityRoster { city: cities@[c as int], residents })) =~= rolls1);
            let (here_local, here_closure) = choose|
                here_local: spec_fn(int, int) -> bool,
                here_closure: spec_fn(int, int) -> bool,
            | #[trigger]
                city_ran(
                    links0,
                    graph.links(),
                    residents@,
                    here_local,
                    here_closure,
                    flipped,
                    rng.drawn(),
                );
            let local0 = local_draws;
            let closure0 = closure_draws;
            let smalls0 = smalls;
            local_draws = |x: int, i: int, j: int| if x == c { here_local(i, j) } else { local0(x, i, j) };
            closure_draws = |x: int, i: int, j: int| if x == c { here_closure(i, j) } else { closure0(x, i, j) };
            smalls = smalls0.push(small);
            lemma_cities_frame(rolls0, rolls1, local0, closure0, local_draws, closure_draws, c as nat);
            lemma_populations_frame(
                log_founded,
                rolls0,
                rolls1,
                smalls0,
                smalls,
                local0,
                closure0,
                local_draws,
                closure_draws,
                c as nat,
            );
            lemma_city_record_frame(
                flipped,
                links0,
                residents@,
                here_local,
                here_closure,
                draws_in_city(local_draws, c as int),
                draws_in_city(closure_draws, c as int),
            );
            assert(rolls1[c as int] == residents@);
            assert(rng.drawn() == populations_record(
                log_founded,
                rolls1,
                smalls,
                local_draws,
                closure_draws,
                (c + 1) as nat,
            ));
            assert forall|d: int| 0 <= d < c + 1 implies (#[trigger] rolls1[d]).len() == size_for(
                plan,
                smalls[d],
            ) by {
                if d < c {
                    assert(rolls1[d] == rolls0[d]);
                    assert(rolls(rosters@)[d].len() == size_for(plan, smalls0[d]));
                }
            }
            lemma_city_frame(
                links0,
                residents@,
                here_local,
                here_closure,
                draws_in_city(local_draws, c as int),
                draws_in_city(closure_draws, c as int),
            );
            assert(rolls1[c as int] == residents@);
            assert(graph.links() == cities_links(rolls1, local_draws, closure_draws, (c + 1) as nat));
        }
        rosters.push(CityRoster { city: cities[c], residents });
        c += 1;
    }
    let ghost inner = graph.links();
    let ghost all = rolls(rosters@);
    proof {
        lemma_census_known(graph.people(), all);
        lemma_bridged_len(inner, all, spans(all));
        lemma_offset(all, Seq::empty(), spans(all));
        if stranded_drivers(all) {
            let c = choose|c: int|
                0 <= c && c + 1 < all.len() && has_driver(#[trigger] all[c]) && all[c + 1].len()
                    == 0;
            let k = choose|k: int| 0 <= k < all[c].len() && (#[trigger] all[c][k]).person.has_car;
            assert(all[c].len() > 0);
        }
        assert(cities_links(all, local_draws, closure_draws, all.len()) == inner);
    }
    match bridge_cities(&mut graph, &rosters) {
        Ok(_) => {},
        Err(e) => {
            proof {
                assert(cities_built(plan, cities@, all, smalls));
                assert(failed_at_bridges(
                    plan,
                    cities@,
                    all,
                    smalls,
                    local_draws,
                    closure_draws,
                    e,
                    log0,
                    rng.drawn(),
                ));
            }
            return Err(e);
        },
    }
    let world = World { graph, rosters };
    proof {
        let links = world.graph.links();
        assert(world.rosters@.len() == plan.cities);
        assert(census(world.graph.people(), rolls(world.rosters@)));
        assert(links == world_links(all, local_draws, closure_draws));
        assert forall|k: int| 0 <= k < links.len() implies {
            let hours = (#[trigger] links[k]).2;
            hours == SHORTCUT_HOURS || hours == LOCAL_HOURS || hours == BRIDGE_HOURS
        } by {
            if k < inner.len() {
                assert(links[k] == inner[k]);
            }
        }
        assert forall|c: int| 0 <= c < world.rosters@.len() implies {
            let roster = #[trigger] world.rosters@[c];
            &&& roster.city.radius == CAR_RADIUS || roster.city.radius == BIKE_RADIUS
            &&& roster.residents@.len() == plan.small_city || roster.residents@.len()
                == plan.large_city
        } by {
            assert(world.rosters@[c].city == cities@[c]);
        }
        assert(built(plan, world));
    }
    proof {
        assert(cities_of(world.rosters@) =~= cities@);
        assert(rolls(world.rosters@) == all);
        assert(world_ran(
            plan,
            world,
            smalls,
            local_draws,
            closure_draws,
            old(rng).drawn(),
            rng.drawn(),
        ));
        assert(world_drawn(plan, world, old(rng).drawn(), rng.drawn()));
    }
    Ok(world)
}

/// Builds a world of the standard configuration. Every city has ten
/// thousand or three hundred thousand residents. The nodes always fit;
/// only the links can run out.
pub fn build_standard_world(rng: &mut RandomSource) -> (outcome: Result<World, BuildError>)
    ensures
        outcome is Ok ==> built(standard_plan(), outcome->Ok_0),
        outcome is Ok ==> outcome->Ok_0.rosters@.len() == 10,
        outcome is Ok ==> forall|c: int|
            0 <= c < outcome->Ok_0.rosters@.len() ==> (#[trigger] outcome->Ok_0.rosters@[c]).residents@.len()
                == 10000 || outcome->Ok_0.rosters@[c].residents@.len() == 300000,
        outcome is Ok ==> world_drawn(
            standard_plan(),
            outcome->Ok_0,
            old(rng).drawn(),
            final(rng).drawn(),
        ),
        outcome is Err ==> outcome->Err_0 == BuildError::EdgeLimit && world_failed(
            standard_plan(),
            BuildError::EdgeLimit,
            old(rng).drawn(),
            final(rng).drawn(),
        ),
        grown_from(old(rng).drawn(), final(rng).drawn()),
        missed_since(final(rng).drawn(), old(rng).drawn().len()) ==> outcome is Ok
            && outcome->Ok_0.graph.links() == bridged(
            Seq::<Link>::empty(),
            rolls(outcome->Ok_0.rosters@),
            spans(rolls(outcome->Ok_0.rosters@)),
        ),
{
    proof {
        assert(largest(standard_plan()) == 300000);
        assert(nodes_fit(standard_plan()));
        assert(no_empty_trap(standard_plan()));
    }
    build_world(rng, WorldPlan::standard())
}

} // verus!
