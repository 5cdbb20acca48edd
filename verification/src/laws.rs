//! Laws that relate the operations of the library to one another.

use vstd::prelude::*;
use crate::builder::{
    after_pair, after_pairs_before, after_pass, after_row, after_rows, city_links, extended_by,
    no_draws, shortcut_links, wants_link, Resident, Wiring, BRIDGE_HOURS, LOCAL_HOURS,
    SHORTCUT_HOURS,
};
use crate::builder::{
    pair_record, record_after_city, row_record, rows_record, settle_draws,
};
use crate::entity::{city_draws, person_draws, City, Person, BIKE_RADIUS, CAR_RADIUS};
use crate::random::{grown_from, Draw};
use crate::world::{
    bridged, bridged_row, census, cities_built, cities_links, draws_in_city, entry_of,
    founding_record, has_driver, lemma_bridged, lemma_census_known, numbered, offset,
    built, cities_of, populations_record, rolls, size_for, spans, stranded_drivers, world_drawn,
    world_links, world_ran, world_record, World, WorldPlan,
};
use crate::graph::{
    found_link, hop_of, hops_at, isolated, lemma_found_link, lemma_hops_member,
    lemma_newest_from_to, newest_from_to, overwritten, runs, touches, Hop, Link,
};
use crate::relay::{
    can_yield, ends_with, first_overflow, first_stranded, follows, lemma_first_overflow,
    lemma_first_stranded, lemma_slot_of, merged, picks_fit, recorded, relays_on, round_result,
    run_ends, run_reaches, slot_of, Arrival, Outcome, RelayError,
};

verus! {

/// Whether a lookup between `a` and `b` finds a link, and that link is a
/// shortcut.
pub open spec fn shortcut_between(links: Seq<Link>, a: u32, b: u32) -> bool {
    found_link(links, a, b) is Some && links[found_link(links, a, b)->0].2 == SHORTCUT_HOURS
}

/// Whether every pair of residents that the shortcut rule considers, among
/// the pairs that come before `(i, j)` in row order, has its shortcut.
pub open spec fn shortcuts_before(links: Seq<Link>, residents: Seq<Resident>, i: int, j: int) -> bool {
    forall|x: int, y: int|
        0 <= x < residents.len() && 0 <= y < residents.len() && (x < i || (x == i && y < j))
            && #[trigger] wants_link(Wiring::Shortcut, links, residents[x], residents[y])
            ==> shortcut_between(links, residents[x].node, residents[y].node)
}

/// Two link lists with the same endpoints at every position give the same
/// lookups.
proof fn lemma_same_ends(one: Seq<Link>, other: Seq<Link>, a: u32, b: u32)
    requires
        one.len() == other.len(),
        forall|k: int|
            0 <= k < one.len() ==> (#[trigger] one[k]).0 == other[k].0 && one[k].1 == other[k].1,
    ensures
        newest_from_to(one, a, b) == newest_from_to(other, a, b),
        found_link(one, a, b) == found_link(other, a, b),
{
    lemma_newest_from_to(one, a, b);
    lemma_newest_from_to(other, a, b);
    lemma_newest_from_to(one, b, a);
    lemma_newest_from_to(other, b, a);
    assert forall|k: int| 0 <= k < one.len() implies runs(#[trigger] one[k], a, b) == runs(
        other[k],
        a,
        b,
    ) && runs(one[k], b, a) == runs(other[k], b, a) by {}
    lemma_same_newest(one, other, a, b);
    lemma_same_newest(one, other, b, a);
}

proof fn lemma_same_newest(one: Seq<Link>, other: Seq<Link>, a: u32, b: u32)
    requires
        one.len() == other.len(),
        forall|k: int|
            0 <= k < one.len() ==> (#[trigger] one[k]).0 == other[k].0 && one[k].1 == other[k].1,
    ensures
        newest_from_to(one, a, b) == newest_from_to(other, a, b),
    decreases one.len(),
{
    if one.len() > 0 {
        assert(one.last().0 == other.last().0 && one.last().1 == other.last().1);
        let one_init = one.drop_last();
        let other_init = other.drop_last();
        assert forall|k: int| 0 <= k < one_init.len() implies (#[trigger] one_init[k]).0
            == other_init[k].0 && one_init[k].1 == other_init[k].1 by {
            assert(one_init[k] == one[k]);
            assert(other_init[k] == other[k]);
        }
        lemma_same_newest(one_init, other_init, a, b);
    }
}

/// An insert-or-overwrite with the shortcut weight leaves the pair with a
/// shortcut, and takes none from another pair.
pub proof fn lemma_overwrite_keeps_shortcuts(links: Seq<Link>, c: u32, d: u32, a: u32, b: u32)
    requires
        shortcut_between(links, a, b) || (a == c && b == d),
    ensures
        shortcut_between(overwritten(links, c, d, SHORTCUT_HOURS), a, b),
{
    let after = overwritten(links, c, d, SHORTCUT_HOURS);
    lemma_found_link(links, c, d);
    lemma_found_link(links, a, b);
    match found_link(links, c, d) {
        Some(k) => {
            lemma_same_ends(links, after, a, b);
        },
        None => {
            assert(after.drop_last() =~= links);
            assert(after.last() == (c, d, SHORTCUT_HOURS));
        },
    }
}

/// Where the pair has its shortcut, the shortcut rule changes nothing.
pub proof fn lemma_shortcut_settled(links: Seq<Link>, a: Resident, b: Resident, draw: bool)
    requires
        wants_link(Wiring::Shortcut, links, a, b) ==> shortcut_between(links, a.node, b.node),
    ensures
        after_pair(Wiring::Shortcut, links, a, b, draw) == links,
{
    if wants_link(Wiring::Shortcut, links, a, b) {
        lemma_found_link(links, a.node, b.node);
        assert(after_pair(Wiring::Shortcut, links, a, b, draw) =~= links);
    }
}

/// After the shortcut rule has handled the pairs before `(i, j)`, each of
/// them that it considers has its shortcut.
pub proof fn lemma_shortcuts_placed(
    links: Seq<Link>,
    residents: Seq<Resident>,
    draws: spec_fn(int, int) -> bool,
    i: nat,
    j: nat,
)
    requires
        i < residents.len(),
        j <= residents.len(),
    ensures
        shortcuts_before(
            after_pairs_before(Wiring::Shortcut, links, residents, draws, i, j),
            residents,
            i as int,
            j as int,
        ),
    decreases i, j,
{
    let pass = Wiring::Shortcut;
    let now = after_pairs_before(pass, links, residents, draws, i, j);
    if j > 0 {
        let before = after_pairs_before(pass, links, residents, draws, i, (j - 1) as nat);
        lemma_shortcuts_placed(links, residents, draws, i, (j - 1) as nat);
        let a = residents[i as int];
        let b = residents[j - 1];
        assert(now == after_pair(pass, before, a, b, draws(i as int, j - 1)));
        assert forall|x: int, y: int|
            0 <= x < residents.len() && 0 <= y < residents.len() && (x < i || (x == i && y < j))
                && #[trigger] wants_link(pass, now, residents[x], residents[y]) implies shortcut_between(
            now,
            residents[x].node,
            residents[y].node,
        ) by {
            let p = residents[x];
            let q = residents[y];
            assert(wants_link(pass, before, p, q));
            if wants_link(pass, before, a, b) {
                lemma_overwrite_keeps_shortcuts(before, a.node, b.node, p.node, q.node);
            }
        }
    } else if i > 0 {
        lemma_shortcuts_placed(links, residents, draws, (i - 1) as nat, residents.len());
        let before = after_pairs_before(pass, links, residents, draws, (i - 1) as nat, residents.len());
        assert(now == before);
        assert forall|x: int, y: int|
            0 <= x < residents.len() && 0 <= y < residents.len() && (x < i || (x == i && y < j))
                && #[trigger] wants_link(pass, now, residents[x], residents[y]) implies shortcut_between(
            now,
            residents[x].node,
            residents[y].node,
        ) by {
            assert(wants_link(pass, before, residents[x], residents[y]));
        }
    }
}

/// Where every considered pair has its shortcut, the shortcut rule leaves
/// the links as they are, up to any pair.
pub proof fn lemma_shortcuts_rest(
    links: Seq<Link>,
    residents: Seq<Resident>,
    draws: spec_fn(int, int) -> bool,
    i: nat,
    j: nat,
)
    requires
        i < residents.len() || (i == residents.len() && j == 0),
        j <= residents.len(),
        shortcuts_before(links, residents, residents.len() as int, 0),
    ensures
        after_rows(Wiring::Shortcut, links, residents, draws, i) == links,
        i < residents.len() ==> after_pairs_before(Wiring::Shortcut, links, residents, draws, i, j)
            == links,
    decreases i, j,
{
    let pass = Wiring::Shortcut;
    if j > 0 {
        lemma_shortcuts_rest(links, residents, draws, i, (j - 1) as nat);
        let a = residents[i as int];
        let b = residents[j - 1];
        if wants_link(pass, links, a, b) {
            assert(shortcut_between(links, a.node, b.node));
        }
        lemma_shortcut_settled(links, a, b, draws(i as int, j - 1));
    } else if i > 0 {
        lemma_shortcuts_rest(links, residents, draws, (i - 1) as nat, residents.len());
    }
}

/// Running the shortcut pass over the same residents again changes
/// nothing: every pair of online residents keeps exactly the links it had,
/// all of them still shortcuts.
pub proof fn lemma_shortcuts_idempotent(links: Seq<Link>, residents: Seq<Resident>)
    ensures
        shortcut_links(shortcut_links(links, residents), residents) == shortcut_links(
            links,
            residents,
        ),
        forall|x: int, y: int|
            0 <= x < residents.len() && 0 <= y < residents.len() && #[trigger] wants_link(
                Wiring::Shortcut,
                links,
                residents[x],
                residents[y],
            ) ==> shortcut_between(
                shortcut_links(links, residents),
                residents[x].node,
                residents[y].node,
            ),
{
    let pass = Wiring::Shortcut;
    let n = residents.len();
    let once = shortcut_links(links, residents);
    if n > 0 {
        lemma_shortcuts_placed(links, residents, no_draws(), (n - 1) as nat, n);
        assert(once == after_pairs_before(pass, links, residents, no_draws(), (n - 1) as nat, n));
        assert forall|x: int, y: int|
            0 <= x < n && 0 <= y < n && #[trigger] wants_link(pass, once, residents[x], residents[y])
            implies shortcut_between(once, residents[x].node, residents[y].node) by {}
        assert(shortcuts_before(once, residents, n as int, 0));
        lemma_shortcuts_rest(once, residents, no_draws(), n, 0);
        assert forall|x: int, y: int|
            0 <= x < n && 0 <= y < n && #[trigger] wants_link(pass, links, residents[x], residents[y])
            implies shortcut_between(once, residents[x].node, residents[y].node) by {
            assert(wants_link(pass, once, residents[x], residents[y]));
        }
    }
}

/// No round can be completed from a start at which no link ends.
proof fn lemma_no_round_from_stranded(
    links: Seq<Link>,
    start: u32,
    dest: u32,
    state: Seq<Arrival>,
    rounds: nat,
)
    requires
        isolated(links, start),
        run_reaches(links, start, dest, state, rounds),
    ensures
        rounds == 0,
    decreases rounds,
{
    if rounds > 0 {
        let prev = choose|prev: Seq<Arrival>|
            run_reaches(links, start, dest, prev, (rounds - 1) as nat) && #[trigger] relays_on(
                links,
                dest,
                prev,
                state,
            );
        lemma_no_round_from_stranded(links, start, dest, prev, (rounds - 1) as nat);
        let first = seq![(start, 0u64)];
        assert(prev == first);
        lemma_first_stranded(links, first);
        assert(first[0].0 == start);
        assert(follows(links, prev, state));
    }
}

/// A message that starts at a node at which no link ends, bound for another
/// node, is reported as stranded there once a round is allowed; it is never
/// relayed on in silence.
pub proof fn lemma_stranded_start_is_reported(
    links: Seq<Link>,
    start: u32,
    dest: u32,
    limit: u64,
    outcome: Result<Outcome, RelayError>,
)
    requires
        start != dest,
        isolated(links, start),
        limit > 0,
        run_ends(links, start, dest, limit, outcome),
    ensures
        outcome == Err::<Outcome, RelayError>(RelayError::NoIncidentEdge(start)),
{
    let (state, rounds) = choose|state: Seq<Arrival>, rounds: nat| #[trigger]
        run_reaches(links, start, dest, state, rounds) && rounds <= limit && ends_with(
            links,
            dest,
            limit,
            state,
            rounds,
            outcome,
        );
    lemma_no_round_from_stranded(links, start, dest, state, rounds);
    let first = seq![(start, 0u64)];
    assert(state == first);
    lemma_slot_of(first, dest);
    assert(first[0].0 == start);
    lemma_first_stranded(links, first);
}

/// A run towards the start itself ends at once, at hour zero, whatever the
/// graph and the limit.
pub proof fn lemma_start_is_delivered(links: Seq<Link>, start: u32, limit: u64)
    ensures
        run_ends(links, start, start, limit, Ok(Outcome::Delivered(0))),
        forall|outcome: Result<Outcome, RelayError>| #[trigger]
            run_ends(links, start, start, limit, outcome) ==> outcome == Ok::<
                Outcome,
                RelayError,
            >(Outcome::Delivered(0)),
{
    let first = seq![(start, 0u64)];
    lemma_slot_of(first, start);
    assert(first[0].0 == start);
    assert(run_reaches(links, start, start, first, 0));
    assert(ends_with(links, start, limit, first, 0, Ok(Outcome::Delivered(0))));
    assert forall|outcome: Result<Outcome, RelayError>| #[trigger]
        run_ends(links, start, start, limit, outcome) implies outcome == Ok::<
        Outcome,
        RelayError,
    >(Outcome::Delivered(0)) by {
        let (state, rounds) = choose|state: Seq<Arrival>, rounds: nat| #[trigger]
            run_reaches(links, start, start, state, rounds) && rounds <= limit && ends_with(
                links,
                start,
                limit,
                state,
                rounds,
                outcome,
            );
        lemma_held_start(links, start, state, rounds);
    }
}

/// A run towards the start itself completes no round.
proof fn lemma_held_start(links: Seq<Link>, start: u32, state: Seq<Arrival>, rounds: nat)
    requires
        run_reaches(links, start, start, state, rounds),
    ensures
        rounds == 0,
        state == seq![(start, 0u64)],
    decreases rounds,
{
    if rounds > 0 {
        let prev = choose|prev: Seq<Arrival>|
            run_reaches(links, start, start, prev, (rounds - 1) as nat) && #[trigger] relays_on(
                links,
                start,
                prev,
                state,
            );
        lemma_held_start(links, start, prev, (rounds - 1) as nat);
        let first = seq![(start, 0u64)];
        lemma_slot_of(first, start);
        assert(first[0].0 == start);
    }
}

/// Whether the property `held` goes along the hop `h` from the node `n`
/// with the time `t`, where the time reached fits in 64 bits.
pub open spec fn goes_along(
    links: Seq<Link>,
    held: spec_fn(u32, u64) -> bool,
    n: u32,
    t: u64,
    h: Hop,
) -> bool {
    held(n, t) && hops_at(links, n).contains(h) && t + h.1 <= u64::MAX ==> held(
        h.0,
        (t + h.1) as u64,
    )
}

/// Whether the property `held` of a node and a time holds of the start at
/// hour zero and goes along every hop.
pub open spec fn carried(links: Seq<Link>, start: u32, held: spec_fn(u32, u64) -> bool) -> bool {
    &&& held(start, 0)
    &&& forall|n: u32, t: u64, h: Hop| #[trigger] goes_along(links, held, n, t, h)
}

/// Whether `held` holds of every holder and its recorded time.
pub open spec fn holds_of_all(entries: Seq<Arrival>, held: spec_fn(u32, u64) -> bool) -> bool {
    forall|k: int| 0 <= k < entries.len() ==> held((#[trigger] entries[k]).0, entries[k].1)
}

proof fn lemma_recorded_keeps(
    entries: Seq<Arrival>,
    node: u32,
    hours: u64,
    held: spec_fn(u32, u64) -> bool,
)
    requires
        holds_of_all(entries, held),
        held(node, hours),
    ensures
        holds_of_all(recorded(entries, node, hours), held),
{
    lemma_slot_of(entries, node);
    let after = recorded(entries, node, hours);
    assert forall|k: int| 0 <= k < after.len() implies held((#[trigger] after[k]).0, after[k].1) by {
        if k < entries.len() && after[k] != (node, hours) {
            assert(after[k] == entries[k]);
        }
    }
}

proof fn lemma_merged_keeps(
    links: Seq<Link>,
    start: u32,
    base: Seq<Arrival>,
    picks: Seq<Hop>,
    count: nat,
    held: spec_fn(u32, u64) -> bool,
)
    requires
        carried(links, start, held),
        holds_of_all(base, held),
        picks_fit(links, base, picks),
        first_overflow(base, picks) is None,
        count <= base.len(),
    ensures
        holds_of_all(merged(base, picks, count), held),
    decreases count,
{
    if count > 0 {
        let k = (count - 1) as int;
        lemma_merged_keeps(links, start, base, picks, k as nat, held);
        lemma_first_overflow(base, picks);
        assert(base[k].1 + picks[k].1 <= u64::MAX);
        assert(hops_at(links, base[k].0).contains(picks[k]));
        assert(goes_along(links, held, base[k].0, base[k].1, picks[k]));
        lemma_recorded_keeps(
            merged(base, picks, k as nat),
            picks[k].0,
            (base[k].1 + picks[k].1) as u64,
            held,
        );
    }
}

/// What holds of the start at hour zero and goes along every hop holds of
/// every holder that a run records, with the time recorded for it.
pub proof fn lemma_run_carries(
    links: Seq<Link>,
    start: u32,
    dest: u32,
    state: Seq<Arrival>,
    rounds: nat,
    held: spec_fn(u32, u64) -> bool,
)
    requires
        carried(links, start, held),
        run_reaches(links, start, dest, state, rounds),
    ensures
        holds_of_all(state, held),
    decreases rounds,
{
    if rounds > 0 {
        let prev = choose|prev: Seq<Arrival>|
            run_reaches(links, start, dest, prev, (rounds - 1) as nat) && #[trigger] relays_on(
                links,
                dest,
                prev,
                state,
            );
        lemma_run_carries(links, start, dest, prev, (rounds - 1) as nat, held);
        assert(follows(links, prev, state));
        lemma_first_stranded(links, prev);
        let picks = choose|picks: Seq<Hop>| #[trigger]
            picks_fit(links, prev, picks) && round_result(prev, picks) == Ok::<
                Seq<Arrival>,
                RelayError,
            >(state);
        lemma_merged_keeps(links, start, prev, picks, prev.len(), held);
    } else {
        let first = seq![(start, 0u64)];
        assert(first[0] == (start, 0u64));
    }
}

/// The node at which a walk from `start` ends.
pub open spec fn walk_end(start: u32, walk: Seq<Hop>) -> u32 {
    if walk.len() == 0 {
        start
    } else {
        walk.last().0
    }
}

/// Whether `walk` is a walk from `start`: every hop is one that the graph
/// offers at the node reached before it.
pub open spec fn is_walk(links: Seq<Link>, start: u32, walk: Seq<Hop>) -> bool
    decreases walk.len(),
{
    walk.len() == 0 || (is_walk(links, start, walk.drop_last()) && hops_at(
        links,
        walk_end(start, walk.drop_last()),
    ).contains(walk.last()))
}

/// The hours of a walk: the sum of the hours of its hops.
pub open spec fn walk_hours(walk: Seq<Hop>) -> int
    decreases walk.len(),
{
    if walk.len() == 0 {
        0
    } else {
        walk_hours(walk.drop_last()) + walk.last().1
    }
}

/// Whether some walk from `start` ends at `node` and takes `hours` hours.
pub open spec fn walked(links: Seq<Link>, start: u32, node: u32, hours: u64) -> bool {
    exists|walk: Seq<Hop>| #[trigger]
        is_walk(links, start, walk) && walk_end(start, walk) == node && walk_hours(walk) == hours
}

/// A time that a run delivers is the exact sum of the hours along a walk
/// from the start to the destination. A destination that no walk reaches is
/// never delivered to.
pub proof fn lemma_delivered_along_walk(
    links: Seq<Link>,
    start: u32,
    dest: u32,
    limit: u64,
    hours: u64,
)
    requires
        run_ends(links, start, dest, limit, Ok(Outcome::Delivered(hours))),
    ensures
        walked(links, start, dest, hours),
{
    let held = |n: u32, t: u64| walked(links, start, n, t);
    let none = Seq::<Hop>::empty();
    assert(is_walk(links, start, none) && walk_end(start, none) == start && walk_hours(none) == 0);
    assert forall|n: u32, t: u64, h: Hop| #[trigger] goes_along(links, held, n, t, h) by {
        if held(n, t) && hops_at(links, n).contains(h) && t + h.1 <= u64::MAX {
            let walk = choose|walk: Seq<Hop>| #[trigger]
                is_walk(links, start, walk) && walk_end(start, walk) == n && walk_hours(walk) == t;
            let longer = walk.push(h);
            assert(longer.drop_last() =~= walk);
            assert(is_walk(links, start, longer) && walk_end(start, longer) == h.0 && walk_hours(
                longer,
            ) == t + h.1);
        }
    }
    let (state, rounds) = choose|state: Seq<Arrival>, rounds: nat| #[trigger]
        run_reaches(links, start, dest, state, rounds) && rounds <= limit && ends_with(
            links,
            dest,
            limit,
            state,
            rounds,
            Ok(Outcome::Delivered(hours)),
        );
    lemma_run_carries(links, start, dest, state, rounds, held);
    lemma_slot_of(state, dest);
    let at = slot_of(state, dest)->0;
    assert(held(state[at].0, state[at].1));
}

/// A node that a hop leads to has a link.
pub proof fn lemma_hop_target_linked(links: Seq<Link>, a: u32, h: Hop)
    requires
        hops_at(links, a).contains(h),
    ensures
        !isolated(links, h.0),
{
    lemma_hops_member(links, a, h);
    let i = choose|i: int|
        0 <= i < links.len() && touches(#[trigger] links[i], a) && hop_of(links[i], a) == h;
    assert(touches(links[i], h.0));
}

/// A run fails for want of an edge only at the start, before any round,
/// and only where no link ends at the start: every other holder was reached
/// over a link and has that link to forward along.
pub proof fn lemma_only_the_start_strands(
    links: Seq<Link>,
    start: u32,
    dest: u32,
    limit: u64,
    node: u32,
)
    requires
        run_ends(links, start, dest, limit, Err(RelayError::NoIncidentEdge(node))),
    ensures
        node == start,
        isolated(links, start),
        start != dest,
        limit > 0,
{
    let outcome = Err::<Outcome, RelayError>(RelayError::NoIncidentEdge(node));
    let (state, rounds) = choose|state: Seq<Arrival>, rounds: nat| #[trigger]
        run_reaches(links, start, dest, state, rounds) && rounds <= limit && ends_with(
            links,
            dest,
            limit,
            state,
            rounds,
            outcome,
        );
    let held = |n: u32, t: u64| n == start || !isolated(links, n);
    assert forall|n: u32, t: u64, h: Hop| #[trigger] goes_along(links, held, n, t, h) by {
        if hops_at(links, n).contains(h) {
            lemma_hop_target_linked(links, n, h);
        }
    }
    lemma_run_carries(links, start, dest, state, rounds, held);
    lemma_first_stranded(links, state);
    assert(can_yield(links, state, Err(RelayError::NoIncidentEdge(node))));
    match first_stranded(links, state) {
        Some(k) => {
            assert(held(state[k].0, state[k].1));
        },
        None => {
            let picks = choose|picks: Seq<Hop>| #[trigger]
                picks_fit(links, state, picks) && round_result(state, picks) == Err::<
                    Seq<Arrival>,
                    RelayError,
                >(RelayError::NoIncidentEdge(node));
            assert(round_result(state, picks) is Err ==> round_result(state, picks)->Err_0
                != RelayError::NoIncidentEdge(node));
        },
    }
    if start == dest {
        lemma_held_start(links, start, state, rounds);
        let first = seq![(start, 0u64)];
        lemma_slot_of(first, start);
        assert(first[0].0 == start);
    }
}

/// Whether `link` is a link within a city as the rules make them: it joins
/// two people of the graph, and it is a local link, or else a shortcut
/// between two people who are both online.
pub open spec fn city_link(people: Seq<Person>, link: Link) -> bool {
    &&& link.0 < people.len()
    &&& link.1 < people.len()
    &&& link.2 == LOCAL_HOURS || (link.2 == SHORTCUT_HOURS && people[link.0 as int].has_net_now
        && people[link.1 as int].has_net_now)
}

/// Whether every link is a link within a city as the rules make them.
pub open spec fn city_links_only(people: Seq<Person>, links: Seq<Link>) -> bool {
    forall|k: int| 0 <= k < links.len() ==> city_link(people, #[trigger] links[k])
}

/// Whether every resident is the person that the graph holds at their node.
pub open spec fn enrolled(people: Seq<Person>, residents: Seq<Resident>) -> bool {
    forall|k: int|
        0 <= k < residents.len() ==> (#[trigger] residents[k]).node < people.len()
            && people[residents[k].node as int] == residents[k].person
}

proof fn lemma_pair_within_city(
    pass: Wiring,
    people: Seq<Person>,
    links: Seq<Link>,
    a: Resident,
    b: Resident,
    draw: bool,
)
    requires
        city_links_only(people, links),
        a.node < people.len() && people[a.node as int] == a.person,
        b.node < people.len() && people[b.node as int] == b.person,
    ensures
        city_links_only(people, after_pair(pass, links, a, b, draw)),
{
    let after = after_pair(pass, links, a, b, draw);
    lemma_found_link(links, a.node, b.node);
    assert forall|k: int| 0 <= k < after.len() implies city_link(people, #[trigger] after[k]) by {
        if k < links.len() {
            assert(city_link(people, links[k]));
        }
    }
}

proof fn lemma_row_within_city(
    pass: Wiring,
    people: Seq<Person>,
    links: Seq<Link>,
    residents: Seq<Resident>,
    draws: spec_fn(int, int) -> bool,
    i: int,
    cols: nat,
)
    requires
        city_links_only(people, links),
        enrolled(people, residents),
        0 <= i < residents.len(),
        cols <= residents.len(),
    ensures
        city_links_only(people, after_row(pass, links, residents, draws, i, cols)),
    decreases cols,
{
    if cols > 0 {
        lemma_row_within_city(pass, people, links, residents, draws, i, (cols - 1) as nat);
        lemma_pair_within_city(
            pass,
            people,
            after_row(pass, links, residents, draws, i, (cols - 1) as nat),
            residents[i],
            residents[cols - 1],
            draws(i, cols - 1),
        );
    }
}

proof fn lemma_rows_within_city(
    pass: Wiring,
    people: Seq<Person>,
    links: Seq<Link>,
    residents: Seq<Resident>,
    draws: spec_fn(int, int) -> bool,
    rows: nat,
)
    requires
        city_links_only(people, links),
        enrolled(people, residents),
        rows <= residents.len(),
    ensures
        city_links_only(people, after_rows(pass, links, residents, draws, rows)),
    decreases rows,
{
    if rows > 0 {
        lemma_rows_within_city(pass, people, links, residents, draws, (rows - 1) as nat);
        lemma_row_within_city(
            pass,
            people,
            after_rows(pass, links, residents, draws, (rows - 1) as nat),
            residents,
            draws,
            rows - 1,
            residents.len(),
        );
    }
}

/// The wiring of a city makes local links and shortcuts only, and a
/// shortcut only between two people who are both online: a link between two
/// people who are not both online keeps its one hour.
pub proof fn lemma_city_within_city(
    people: Seq<Person>,
    links: Seq<Link>,
    residents: Seq<Resident>,
    local_draws: spec_fn(int, int) -> bool,
    closure_draws: spec_fn(int, int) -> bool,
)
    requires
        city_links_only(people, links),
        enrolled(people, residents),
    ensures
        city_links_only(people, city_links(links, residents, local_draws, closure_draws)),
{
    let n = residents.len();
    lemma_rows_within_city(Wiring::Local, people, links, residents, local_draws, n);
    let first = after_pass(Wiring::Local, links, residents, local_draws);
    lemma_rows_within_city(Wiring::Closure, people, first, residents, closure_draws, n);
    let second = after_pass(Wiring::Closure, first, residents, closure_draws);
    lemma_rows_within_city(Wiring::Shortcut, people, second, residents, no_draws(), n);
}

proof fn lemma_cities_within_city(
    people: Seq<Person>,
    rolls: Seq<Seq<Resident>>,
    local_draws: spec_fn(int, int, int) -> bool,
    closure_draws: spec_fn(int, int, int) -> bool,
    upto: nat,
)
    requires
        census(people, rolls),
        upto <= rolls.len(),
    ensures
        city_links_only(people, cities_links(rolls, local_draws, closure_draws, upto)),
    decreases upto,
{
    if upto > 0 {
        lemma_cities_within_city(people, rolls, local_draws, closure_draws, (upto - 1) as nat);
        lemma_census_known(people, rolls);
        let roll = rolls[upto - 1];
        assert(enrolled(people, roll)) by {
            assert forall|k: int| 0 <= k < roll.len() implies (#[trigger] roll[k]).node
                < people.len() && people[roll[k].node as int] == roll[k].person by {
                assert(rolls[upto - 1][k] == roll[k]);
            }
        }
        lemma_city_within_city(
            people,
            cities_links(rolls, local_draws, closure_draws, (upto - 1) as nat),
            roll,
            draws_in_city(local_draws, upto - 1),
            draws_in_city(closure_draws, upto - 1),
        );
    }
}

/// The links of a world, whatever the draws: first those made within the
/// cities, each a local link of one hour or else a shortcut of no hours
/// between two people who are both online; behind them the bridges, of
/// three hours. So a link made by the local or the closure rule keeps its
/// one hour to the end unless both its people are online.
pub proof fn lemma_world_weights(
    people: Seq<Person>,
    rolls: Seq<Seq<Resident>>,
    local_draws: spec_fn(int, int, int) -> bool,
    closure_draws: spec_fn(int, int, int) -> bool,
)
    requires
        census(people, rolls),
    ensures
        city_links_only(people, cities_links(rolls, local_draws, closure_draws, rolls.len())),
        extended_by(
            cities_links(rolls, local_draws, closure_draws, rolls.len()),
            world_links(rolls, local_draws, closure_draws),
            BRIDGE_HOURS,
        ),
{
    lemma_cities_within_city(people, rolls, local_draws, closure_draws, rolls.len());
    lemma_bridged(
        cities_links(rolls, local_draws, closure_draws, rolls.len()),
        rolls,
        spans(rolls),
        spans(rolls),
    );
}

/// Whether `link` leads from resident `x` to resident `y` of city `c`, two
/// residents with different identifiers.
pub open spec fn home_pair(rolls: Seq<Seq<Resident>>, link: Link, c: int, x: int, y: int) -> bool {
    &&& 0 <= c < rolls.len()
    &&& 0 <= x < rolls[c].len()
    &&& 0 <= y < rolls[c].len()
    &&& rolls[c][x].person.id != rolls[c][y].person.id
    &&& link.0 == rolls[c][x].node
    &&& link.1 == rolls[c][y].node
}

/// Whether `link` joins two residents of one city.
pub open spec fn homed(rolls: Seq<Seq<Resident>>, link: Link) -> bool {
    exists|c: int, x: int, y: int| #[trigger] home_pair(rolls, link, c, x, y)
}

/// Whether every link joins two residents of one city.
pub open spec fn all_homed(rolls: Seq<Seq<Resident>>, links: Seq<Link>) -> bool {
    forall|k: int| 0 <= k < links.len() ==> homed(rolls, #[trigger] links[k])
}

/// Whether `link` is a bridge from resident `x` of city `c`, a car owner, to
/// the entry point of the city generated next.
pub open spec fn bridge_from(rolls: Seq<Seq<Resident>>, link: Link, c: int, x: int) -> bool {
    &&& 0 <= c
    &&& c + 1 < rolls.len()
    &&& 0 <= x < rolls[c].len()
    &&& rolls[c][x].person.has_car
    &&& link == (rolls[c][x].node, entry_of(rolls[c + 1]), BRIDGE_HOURS)
}

/// Whether `link` is a bridge between two cities next to each other.
pub open spec fn is_bridge(rolls: Seq<Seq<Resident>>, link: Link) -> bool {
    exists|c: int, x: int| #[trigger] bridge_from(rolls, link, c, x)
}

proof fn lemma_pair_homed(
    pass: Wiring,
    rolls: Seq<Seq<Resident>>,
    links: Seq<Link>,
    c: int,
    x: int,
    y: int,
    draw: bool,
)
    requires
        all_homed(rolls, links),
        0 <= c < rolls.len(),
        0 <= x < rolls[c].len(),
        0 <= y < rolls[c].len(),
    ensures
        all_homed(rolls, after_pair(pass, links, rolls[c][x], rolls[c][y], draw)),
{
    let a = rolls[c][x];
    let b = rolls[c][y];
    let after = after_pair(pass, links, a, b, draw);
    lemma_found_link(links, a.node, b.node);
    assert forall|k: int| 0 <= k < after.len() implies homed(rolls, #[trigger] after[k]) by {
        if k < links.len() {
            assert(homed(rolls, links[k]));
            let (d, u, v) = choose|d: int, u: int, v: int| #[trigger]
                home_pair(rolls, links[k], d, u, v);
            assert(home_pair(rolls, after[k], d, u, v));
        } else {
            assert(home_pair(rolls, after[k], c, x, y));
        }
    }
}

proof fn lemma_row_homed(
    pass: Wiring,
    rolls: Seq<Seq<Resident>>,
    links: Seq<Link>,
    c: int,
    draws: spec_fn(int, int) -> bool,
    i: int,
    cols: nat,
)
    requires
        all_homed(rolls, links),
        0 <= c < rolls.len(),
        0 <= i < rolls[c].len(),
        cols <= rolls[c].len(),
    ensures
        all_homed(rolls, after_row(pass, links, rolls[c], draws, i, cols)),
    decreases cols,
{
    if cols > 0 {
        lemma_row_homed(pass, rolls, links, c, draws, i, (cols - 1) as nat);
        lemma_pair_homed(
            pass,
            rolls,
            after_row(pass, links, rolls[c], draws, i, (cols - 1) as nat),
            c,
            i,
            cols - 1,
            draws(i, cols - 1),
        );
    }
}

proof fn lemma_rows_homed(
    pass: Wiring,
    rolls: Seq<Seq<Resident>>,
    links: Seq<Link>,
    c: int,
    draws: spec_fn(int, int) -> bool,
    rows: nat,
)
    requires
        all_homed(rolls, links),
        0 <= c < rolls.len(),
        rows <= rolls[c].len(),
    ensures
        all_homed(rolls, after_rows(pass, links, rolls[c], draws, rows)),
    decreases rows,
{
    if rows > 0 {
        lemma_rows_homed(pass, rolls, links, c, draws, (rows - 1) as nat);
        lemma_row_homed(
            pass,
            rolls,
            after_rows(pass, links, rolls[c], draws, (rows - 1) as nat),
            c,
            draws,
            rows - 1,
            rolls[c].len(),
        );
    }
}

/// Every link that the wiring of the cities makes joins two residents of
/// one city who have different identifiers.
pub proof fn lemma_cities_homed(
    rolls: Seq<Seq<Resident>>,
    local_draws: spec_fn(int, int, int) -> bool,
    closure_draws: spec_fn(int, int, int) -> bool,
    upto: nat,
)
    requires
        upto <= rolls.len(),
    ensures
        all_homed(rolls, cities_links(rolls, local_draws, closure_draws, upto)),
    decreases upto,
{
    if upto > 0 {
        let c = upto - 1;
        lemma_cities_homed(rolls, local_draws, closure_draws, c as nat);
        let start = cities_links(rolls, local_draws, closure_draws, c as nat);
        let n = rolls[c].len();
        lemma_rows_homed(Wiring::Local, rolls, start, c, draws_in_city(local_draws, c), n);
        let first = after_pass(Wiring::Local, start, rolls[c], draws_in_city(local_draws, c));
        lemma_rows_homed(Wiring::Closure, rolls, first, c, draws_in_city(closure_draws, c), n);
        let second = after_pass(Wiring::Closure, first, rolls[c], draws_in_city(closure_draws, c));
        lemma_rows_homed(Wiring::Shortcut, rolls, second, c, no_draws(), n);
    }
}

proof fn lemma_bridges_row(
    rolls: Seq<Seq<Resident>>,
    links: Seq<Link>,
    c: int,
    upto: nat,
    base: nat,
)
    requires
        0 <= c,
        c + 1 < rolls.len(),
        upto <= rolls[c].len(),
        base <= links.len(),
        forall|k: int| base <= k < links.len() ==> is_bridge(rolls, #[trigger] links[k]),
    ensures
        forall|k: int|
            base <= k < bridged_row(links, rolls[c], entry_of(rolls[c + 1]), upto).len()
                ==> is_bridge(
                rolls,
                #[trigger] bridged_row(links, rolls[c], entry_of(rolls[c + 1]), upto)[k],
            ),
        forall|k: int|
            0 <= k < base ==> #[trigger] bridged_row(links, rolls[c], entry_of(rolls[c + 1]), upto)[k]
                == links[k],
        base <= bridged_row(links, rolls[c], entry_of(rolls[c + 1]), upto).len(),
    decreases upto,
{
    if upto > 0 {
        lemma_bridges_row(rolls, links, c, (upto - 1) as nat, base);
        let before = bridged_row(links, rolls[c], entry_of(rolls[c + 1]), (upto - 1) as nat);
        let after = bridged_row(links, rolls[c], entry_of(rolls[c + 1]), upto);
        if rolls[c][upto - 1].person.has_car {
            assert(bridge_from(rolls, after[before.len() as int], c, upto - 1));
        }
        assert forall|k: int| base <= k < after.len() implies is_bridge(rolls, #[trigger] after[k]) by {
            if k < before.len() {
                assert(is_bridge(rolls, before[k]));
            }
        }
    }
}

proof fn lemma_bridges(rolls: Seq<Seq<Resident>>, links: Seq<Link>, upto: nat)
    requires
        upto <= spans(rolls),
    ensures
        links.len() <= bridged(links, rolls, upto).len(),
        forall|k: int| 0 <= k < links.len() ==> #[trigger] bridged(links, rolls, upto)[k] == links[k],
        forall|k: int|
            links.len() <= k < bridged(links, rolls, upto).len() ==> is_bridge(
                rolls,
                #[trigger] bridged(links, rolls, upto)[k],
            ),
    decreases upto,
{
    if upto > 0 {
        lemma_bridges(rolls, links, (upto - 1) as nat);
        lemma_bridges_row(
            rolls,
            bridged(links, rolls, (upto - 1) as nat),
            upto - 1,
            rolls[upto - 1].len(),
            links.len(),
        );
    }
}

/// The two kinds of link in a world, whatever the draws: a link joins two
/// residents of one city who have different identifiers, or it is a bridge
/// of three hours from a car owner to the entry point of the city generated
/// next. The bridges stand behind the links within the cities.
pub proof fn lemma_world_links_sorted(
    rolls: Seq<Seq<Resident>>,
    local_draws: spec_fn(int, int, int) -> bool,
    closure_draws: spec_fn(int, int, int) -> bool,
)
    ensures
        forall|k: int|
            0 <= k < world_links(rolls, local_draws, closure_draws).len() ==> {
                let link = #[trigger] world_links(rolls, local_draws, closure_draws)[k];
                if k < cities_links(rolls, local_draws, closure_draws, rolls.len()).len() {
                    homed(rolls, link) && link == cities_links(
                        rolls,
                        local_draws,
                        closure_draws,
                        rolls.len(),
                    )[k]
                } else {
                    is_bridge(rolls, link)
                }
            },
{
    let inner = cities_links(rolls, local_draws, closure_draws, rolls.len());
    lemma_cities_homed(rolls, local_draws, closure_draws, rolls.len());
    lemma_bridges(rolls, inner, spans(rolls));
}

/// Where the residents name the nodes in the order of their generation, a
/// node names one resident only: no two roster entries share a handle.
pub proof fn lemma_handles_differ(rolls: Seq<Seq<Resident>>, c: int, x: int, d: int, y: int)
    requires
        numbered(rolls),
        0 <= c < rolls.len(),
        0 <= x < rolls[c].len(),
        0 <= d < rolls.len(),
        0 <= y < rolls[d].len(),
        rolls[c][x].node == rolls[d][y].node,
    ensures
        c == d,
        x == y,
{
    assert(rolls[c][x].node == offset(rolls, c as nat) + x);
    assert(rolls[d][y].node == offset(rolls, d as nat) + y);
    if c < d {
        lemma_offset_between(rolls, (c + 1) as nat, d as nat);
    }
    if d < c {
        lemma_offset_between(rolls, (d + 1) as nat, c as nat);
    }
}

proof fn lemma_offset_between(rolls: Seq<Seq<Resident>>, low: nat, high: nat)
    requires
        low <= high <= rolls.len(),
    ensures
        offset(rolls, low) <= offset(rolls, high),
    decreases high - low,
{
    if low < high {
        lemma_offset_between(rolls, low, (high - 1) as nat);
    }
}

/// No link of a world is a self-loop: a link within a city joins two
/// residents with different identifiers, who stand at different nodes, and
/// a bridge leads into another city.
pub proof fn lemma_no_self_loop(
    people: Seq<Person>,
    rolls: Seq<Seq<Resident>>,
    local_draws: spec_fn(int, int, int) -> bool,
    closure_draws: spec_fn(int, int, int) -> bool,
    k: int,
)
    requires
        census(people, rolls),
        !stranded_drivers(rolls),
        0 <= k < world_links(rolls, local_draws, closure_draws).len(),
    ensures
        world_links(rolls, local_draws, closure_draws)[k].0 != world_links(
            rolls,
            local_draws,
            closure_draws,
        )[k].1,
{
    let link = world_links(rolls, local_draws, closure_draws)[k];
    lemma_world_links_sorted(rolls, local_draws, closure_draws);
    if homed(rolls, link) {
        let (c, x, y) = choose|c: int, x: int, y: int| #[trigger] home_pair(rolls, link, c, x, y);
        if link.0 == link.1 {
            lemma_handles_differ(rolls, c, x, c, y);
        }
    } else {
        let (c, x) = choose|c: int, x: int| #[trigger] bridge_from(rolls, link, c, x);
        assert(rolls[c][x].person.has_car);
        assert(rolls[c + 1].len() > 0) by {
            if rolls[c + 1].len() == 0 {
                assert(has_driver(rolls[c]));
            }
        }
        if link.0 == link.1 {
            lemma_handles_differ(rolls, c, x, c + 1, 0);
        }
    }
}

/// Whether resident `x` of city `c` stands at `node`.
pub open spec fn stands_at(rolls: Seq<Seq<Resident>>, node: u32, c: int, x: int) -> bool {
    0 <= c < rolls.len() && 0 <= x < rolls[c].len() && rolls[c][x].node == node
}

/// Whether `node` carries a resident of city `c`.
pub open spec fn lives_in(rolls: Seq<Seq<Resident>>, node: u32, c: int) -> bool {
    exists|x: int| #[trigger] stands_at(rolls, node, c, x)
}

/// Whether `node` carries a resident of a city that is reached from city
/// `from` over no more bridges than `hours` hours pay for, at three hours
/// a bridge.
pub open spec fn within_reach(rolls: Seq<Seq<Resident>>, from: int, node: u32, hours: u64) -> bool {
    exists|c: int| #[trigger] lives_in(rolls, node, c) && 3 * (c - from) <= hours
}

/// A hop in a world stays in the city or crosses one bridge, which costs
/// three hours.
proof fn lemma_hop_within_reach(
    people: Seq<Person>,
    rolls: Seq<Seq<Resident>>,
    local_draws: spec_fn(int, int, int) -> bool,
    closure_draws: spec_fn(int, int, int) -> bool,
    from: int,
    n: u32,
    t: u64,
    h: Hop,
)
    requires
        census(people, rolls),
        !stranded_drivers(rolls),
        within_reach(rolls, from, n, t),
        hops_at(world_links(rolls, local_draws, closure_draws), n).contains(h),
        t + h.1 <= u64::MAX,
    ensures
        within_reach(rolls, from, h.0, (t + h.1) as u64),
{
    let links = world_links(rolls, local_draws, closure_draws);
    lemma_hops_member(links, n, h);
    let i = choose|i: int|
        0 <= i < links.len() && touches(#[trigger] links[i], n) && hop_of(links[i], n) == h;
    let link = links[i];
    lemma_world_links_sorted(rolls, local_draws, closure_draws);
    let c = choose|c: int| #[trigger] lives_in(rolls, n, c) && 3 * (c - from) <= t;
    let x = choose|x: int| #[trigger] stands_at(rolls, n, c, x);
    if homed(rolls, link) {
        let (d, u, v) = choose|d: int, u: int, v: int| #[trigger] home_pair(rolls, link, d, u, v);
        if link.0 == n {
            lemma_handles_differ(rolls, c, x, d, u);
            assert(stands_at(rolls, h.0, c, v));
        } else {
            lemma_handles_differ(rolls, c, x, d, v);
            assert(stands_at(rolls, h.0, c, u));
        }
        assert(lives_in(rolls, h.0, c));
    } else {
        let (d, u) = choose|d: int, u: int| #[trigger] bridge_from(rolls, link, d, u);
        assert(rolls[d + 1].len() > 0) by {
            if rolls[d + 1].len() == 0 {
                assert(has_driver(rolls[d]));
            }
        }
        if link.0 == n {
            lemma_handles_differ(rolls, c, x, d, u);
            assert(stands_at(rolls, h.0, c + 1, 0));
            assert(lives_in(rolls, h.0, c + 1));
        } else {
            lemma_handles_differ(rolls, c, x, d + 1, 0);
            assert(stands_at(rolls, h.0, c - 1, u));
            assert(lives_in(rolls, h.0, c - 1));
        }
    }
}

/// A message that is delivered from a resident of one city to a resident
/// of a later city has taken three hours for every city between them: the
/// cities are chained, and each bridge costs three hours. From the first of
/// ten cities to the last that is twenty-seven hours or more.
pub proof fn lemma_bridges_cost_time(
    people: Seq<Person>,
    rolls: Seq<Seq<Resident>>,
    local_draws: spec_fn(int, int, int) -> bool,
    closure_draws: spec_fn(int, int, int) -> bool,
    start: u32,
    dest: u32,
    from: int,
    to: int,
    limit: u64,
    hours: u64,
)
    requires
        census(people, rolls),
        !stranded_drivers(rolls),
        lives_in(rolls, start, from),
        lives_in(rolls, dest, to),
        run_ends(
            world_links(rolls, local_draws, closure_draws),
            start,
            dest,
            limit,
            Ok(Outcome::Delivered(hours)),
        ),
    ensures
        hours >= 3 * (to - from),
{
    let links = world_links(rolls, local_draws, closure_draws);
    let held = |n: u32, t: u64| within_reach(rolls, from, n, t);
    assert(held(start, 0));
    assert forall|n: u32, t: u64, h: Hop| #[trigger] goes_along(links, held, n, t, h) by {
        if held(n, t) && hops_at(links, n).contains(h) && t + h.1 <= u64::MAX {
            lemma_hop_within_reach(people, rolls, local_draws, closure_draws, from, n, t, h);
        }
    }
    let (state, rounds) = choose|state: Seq<Arrival>, rounds: nat| #[trigger]
        run_reaches(links, start, dest, state, rounds) && rounds <= limit && ends_with(
            links,
            dest,
            limit,
            state,
            rounds,
            Ok(Outcome::Delivered(hours)),
        );
    lemma_run_carries(links, start, dest, state, rounds, held);
    lemma_slot_of(state, dest);
    let at = slot_of(state, dest)->0;
    assert(held(state[at].0, state[at].1));
    let c = choose|c: int| #[trigger] lives_in(rolls, dest, c) && 3 * (c - from) <= hours;
    let x = choose|x: int| #[trigger] stands_at(rolls, dest, c, x);
    let y = choose|y: int| #[trigger] stands_at(rolls, dest, to, y);
    lemma_handles_differ(rolls, c, x, to, y);
}

/// Two records that end in equally many draws and are equal have equal
/// ends and equal beginnings.
proof fn lemma_split_record(one: Seq<Draw>, end_one: Seq<Draw>, other: Seq<Draw>, end_other: Seq<Draw>)
    requires
        one + end_one == other + end_other,
        end_one.len() == end_other.len(),
    ensures
        one == other,
        end_one == end_other,
{
    let whole = one + end_one;
    assert(whole.len() == one.len() + end_one.len());
    assert((other + end_other).len() == other.len() + end_other.len());
    assert(one.len() == other.len());
    assert(one =~= whole.subrange(0, one.len() as int));
    assert(other =~= (other + end_other).subrange(0, other.len() as int));
    assert(end_one =~= whole.subrange(one.len() as int, whole.len() as int));
    assert(end_other =~= (other + end_other).subrange(other.len() as int, whole.len() as int));
}

proof fn lemma_founding_len(log: Seq<Draw>, cities: Seq<City>, upto: nat)
    ensures
        founding_record(log, cities, upto).len() == log.len() + 4 * upto,
    decreases upto,
{
    if upto > 0 {
        lemma_founding_len(log, cities, (upto - 1) as nat);
    }
}

/// The record fixes the cities: two runs that generate cities and leave the
/// same record behind the same beginning have generated the same cities,
/// identifier, centre and radius, in the same order.
pub proof fn lemma_record_fixes_cities(log: Seq<Draw>, one: Seq<City>, other: Seq<City>, upto: nat)
    requires
        upto <= one.len(),
        upto <= other.len(),
        founding_record(log, one, upto) == founding_record(log, other, upto),
        forall|c: int|
            0 <= c < upto ==> ((#[trigger] one[c]).radius == CAR_RADIUS || one[c].radius
                == BIKE_RADIUS),
        forall|c: int|
            0 <= c < upto ==> ((#[trigger] other[c]).radius == CAR_RADIUS || other[c].radius
                == BIKE_RADIUS),
    ensures
        forall|c: int| 0 <= c < upto ==> #[trigger] one[c] == other[c],
    decreases upto,
{
    if upto > 0 {
        let k = (upto - 1) as nat;
        lemma_founding_len(log, one, k);
        lemma_founding_len(log, other, k);
        let a = one[k as int];
        let b = other[k as int];
        lemma_split_record(
            founding_record(log, one, k),
            city_draws(a),
            founding_record(log, other, k),
            city_draws(b),
        );
        assert(city_draws(a)[0] == city_draws(b)[0]);
        assert(city_draws(a)[1] == city_draws(b)[1]);
        assert(city_draws(a)[2] == city_draws(b)[2]);
        assert(city_draws(a)[3] == city_draws(b)[3]);
        assert(a.center == b.center);
        assert(a == b);
        lemma_record_fixes_cities(log, one, other, k);
    }
}

proof fn lemma_settle_draws_len(residents: Seq<Resident>, upto: nat)
    ensures
        settle_draws(residents, upto).len() == 5 * upto,
    decreases upto,
{
    if upto > 0 {
        lemma_settle_draws_len(residents, (upto - 1) as nat);
    }
}

/// The record fixes the people: two runs that settle equally many residents
/// and leave the same record have made the same people, in the same order.
pub proof fn lemma_record_fixes_people(one: Seq<Resident>, other: Seq<Resident>, upto: nat)
    requires
        upto <= one.len(),
        upto <= other.len(),
        settle_draws(one, upto) == settle_draws(other, upto),
    ensures
        forall|k: int| 0 <= k < upto ==> (#[trigger] one[k]).person == other[k].person,
    decreases upto,
{
    if upto > 0 {
        let k = (upto - 1) as nat;
        lemma_settle_draws_len(one, k);
        lemma_settle_draws_len(other, k);
        let a = one[k as int].person;
        let b = other[k as int].person;
        lemma_split_record(
            settle_draws(one, k),
            person_draws(a),
            settle_draws(other, k),
            person_draws(b),
        );
        assert(person_draws(a)[0] == person_draws(b)[0]);
        assert(person_draws(a)[1] == person_draws(b)[1]);
        assert(person_draws(a)[2] == person_draws(b)[2]);
        assert(person_draws(a)[3] == person_draws(b)[3]);
        assert(person_draws(a)[4] == person_draws(b)[4]);
        assert(a.home == b.home);
        assert(a == b);
        lemma_record_fixes_people(one, other, k);
    }
}

/// Two beginnings of one record that are equally long are equal.
proof fn lemma_same_beginning(one: Seq<Draw>, other: Seq<Draw>, whole: Seq<Draw>)
    requires
        grown_from(one, whole),
        grown_from(other, whole),
        one.len() == other.len(),
    ensures
        one == other,
{
    assert forall|k: int| 0 <= k < one.len() implies one[k] == other[k] by {
        assert(whole[k] == one[k]);
        assert(whole[k] == other[k]);
    }
    assert(one =~= other);
}

/// A record that begins with two parts begins with the first, and holds the
/// second behind it.
proof fn lemma_beginning_of_beginning(first: Seq<Draw>, second: Seq<Draw>, whole: Seq<Draw>)
    requires
        grown_from(first + second, whole),
    ensures
        grown_from(first, whole),
        forall|k: int| 0 <= k < second.len() ==> whole[first.len() + k] == #[trigger] second[k],
{
    let both = first + second;
    assert forall|k: int| 0 <= k < first.len() implies #[trigger] whole[k] == first[k] by {
        assert(whole[k] == both[k]);
    }
    assert forall|k: int| 0 <= k < second.len() implies whole[first.len() + k]
        == #[trigger] second[k] by {
        assert(whole[first.len() + k] == both[first.len() + k]);
    }
}

proof fn lemma_pair_fixed(
    pass: Wiring,
    links: Seq<Link>,
    a: Resident,
    b: Resident,
    d1: bool,
    d2: bool,
    before: Seq<Draw>,
    whole: Seq<Draw>,
)
    requires
        grown_from(before + pair_record(pass, links, a, b, d1), whole),
        grown_from(before + pair_record(pass, links, a, b, d2), whole),
    ensures
        after_pair(pass, links, a, b, d1) == after_pair(pass, links, a, b, d2),
        pair_record(pass, links, a, b, d1) == pair_record(pass, links, a, b, d2),
{
    let p1 = pair_record(pass, links, a, b, d1);
    let p2 = pair_record(pass, links, a, b, d2);
    if pass != Wiring::Shortcut && wants_link(pass, links, a, b) {
        lemma_beginning_of_beginning(before, p1, whole);
        lemma_beginning_of_beginning(before, p2, whole);
        assert(whole[before.len() as int] == p1[0]);
        assert(whole[before.len() as int] == p2[0]);
        assert(d1 == d2);
    }
}

proof fn lemma_row_fixed(
    pass: Wiring,
    links: Seq<Link>,
    residents: Seq<Resident>,
    d1: spec_fn(int, int) -> bool,
    d2: spec_fn(int, int) -> bool,
    i: int,
    cols: nat,
    before: Seq<Draw>,
    whole: Seq<Draw>,
)
    requires
        grown_from(before + row_record(pass, links, residents, d1, i, cols), whole),
        grown_from(before + row_record(pass, links, residents, d2, i, cols), whole),
    ensures
        after_row(pass, links, residents, d1, i, cols) == after_row(
            pass,
            links,
            residents,
            d2,
            i,
            cols,
        ),
        row_record(pass, links, residents, d1, i, cols) == row_record(
            pass,
            links,
            residents,
            d2,
            i,
            cols,
        ),
    decreases cols,
{
    if cols > 0 {
        let k = (cols - 1) as nat;
        let r1 = row_record(pass, links, residents, d1, i, k);
        let r2 = row_record(pass, links, residents, d2, i, k);
        let l1 = after_row(pass, links, residents, d1, i, k);
        let l2 = after_row(pass, links, residents, d2, i, k);
        let p1 = pair_record(pass, l1, residents[i], residents[k as int], d1(i, k as int));
        let p2 = pair_record(pass, l2, residents[i], residents[k as int], d2(i, k as int));
        assert(before + (r1 + p1) =~= (before + r1) + p1);
        assert(before + (r2 + p2) =~= (before + r2) + p2);
        lemma_beginning_of_beginning(before + r1, p1, whole);
        lemma_beginning_of_beginning(before + r2, p2, whole);
        lemma_row_fixed(pass, links, residents, d1, d2, i, k, before, whole);
        lemma_pair_fixed(
            pass,
            l1,
            residents[i],
            residents[k as int],
            d1(i, k as int),
            d2(i, k as int),
            before + r1,
            whole,
        );
    }
}

proof fn lemma_rows_fixed(
    pass: Wiring,
    links: Seq<Link>,
    residents: Seq<Resident>,
    d1: spec_fn(int, int) -> bool,
    d2: spec_fn(int, int) -> bool,
    rows: nat,
    before: Seq<Draw>,
    whole: Seq<Draw>,
)
    requires
        grown_from(before + rows_record(pass, links, residents, d1, rows), whole),
        grown_from(before + rows_record(pass, links, residents, d2, rows), whole),
    ensures
        after_rows(pass, links, residents, d1, rows) == after_rows(
            pass,
            links,
            residents,
            d2,
            rows,
        ),
        rows_record(pass, links, residents, d1, rows) == rows_record(
            pass,
            links,
            residents,
            d2,
            rows,
        ),
    decreases rows,
{
    if rows > 0 {
        let k = (rows - 1) as nat;
        let n = residents.len();
        let r1 = rows_record(pass, links, residents, d1, k);
        let r2 = rows_record(pass, links, residents, d2, k);
        let l1 = after_rows(pass, links, residents, d1, k);
        let l2 = after_rows(pass, links, residents, d2, k);
        let w1 = row_record(pass, l1, residents, d1, k as int, n);
        let w2 = row_record(pass, l2, residents, d2, k as int, n);
        assert(before + (r1 + w1) =~= (before + r1) + w1);
        assert(before + (r2 + w2) =~= (before + r2) + w2);
        lemma_beginning_of_beginning(before + r1, w1, whole);
        lemma_beginning_of_beginning(before + r2, w2, whole);
        lemma_rows_fixed(pass, links, residents, d1, d2, k, before, whole);
        lemma_row_fixed(pass, l1, residents, d1, d2, k as int, n, before + r1, whole);
    }
}

/// The record fixes the wiring of a city: two runs that wire the same
/// residents from the same links and leave records that begin one record
/// have made the same links and the same draws.
pub proof fn lemma_record_fixes_city(
    log: Seq<Draw>,
    links: Seq<Link>,
    residents: Seq<Resident>,
    l1: spec_fn(int, int) -> bool,
    c1: spec_fn(int, int) -> bool,
    l2: spec_fn(int, int) -> bool,
    c2: spec_fn(int, int) -> bool,
    whole: Seq<Draw>,
)
    requires
        grown_from(record_after_city(log, links, residents, l1, c1), whole),
        grown_from(record_after_city(log, links, residents, l2, c2), whole),
    ensures
        city_links(links, residents, l1, c1) == city_links(links, residents, l2, c2),
        record_after_city(log, links, residents, l1, c1) == record_after_city(
            log,
            links,
            residents,
            l2,
            c2,
        ),
{
    let n = residents.len();
    let settled = log + settle_draws(residents, n);
    let local1 = rows_record(Wiring::Local, links, residents, l1, n);
    let local2 = rows_record(Wiring::Local, links, residents, l2, n);
    let first1 = after_pass(Wiring::Local, links, residents, l1);
    let first2 = after_pass(Wiring::Local, links, residents, l2);
    let closure1 = rows_record(Wiring::Closure, first1, residents, c1, n);
    let closure2 = rows_record(Wiring::Closure, first2, residents, c2, n);
    lemma_beginning_of_beginning(settled + local1, closure1, whole);
    lemma_beginning_of_beginning(settled + local2, closure2, whole);
    lemma_rows_fixed(Wiring::Local, links, residents, l1, l2, n, settled, whole);
    lemma_rows_fixed(Wiring::Closure, first1, residents, c1, c2, n, settled + local1, whole);
}

proof fn lemma_city_record_begins(
    log: Seq<Draw>,
    links: Seq<Link>,
    residents: Seq<Resident>,
    l: spec_fn(int, int) -> bool,
    c: spec_fn(int, int) -> bool,
)
    ensures
        grown_from(log, record_after_city(log, links, residents, l, c)),
{
}

proof fn lemma_grown_chain(first: Seq<Draw>, second: Seq<Draw>, third: Seq<Draw>)
    requires
        grown_from(first, second),
        grown_from(second, third),
    ensures
        grown_from(first, third),
{
    assert forall|k: int| 0 <= k < first.len() implies #[trigger] third[k] == first[k] by {
        assert(second[k] == first[k]);
    }
}

proof fn lemma_offset_same(one: Seq<Seq<Resident>>, other: Seq<Seq<Resident>>, upto: nat)
    requires
        upto <= one.len(),
        upto <= other.len(),
        forall|c: int| 0 <= c < upto ==> #[trigger] one[c] == other[c],
    ensures
        offset(one, upto) == offset(other, upto),
    decreases upto,
{
    if upto > 0 {
        lemma_offset_same(one, other, (upto - 1) as nat);
        assert(one[upto - 1] == other[upto - 1]);
    }
}

/// The record fixes the cities' residents and links: two runs that settle
/// and wire cities of one plan and leave records that begin one record have
/// made the same size draws, the same residents at the same nodes, and the
/// same links.
pub proof fn lemma_record_fixes_populations(
    plan: WorldPlan,
    log: Seq<Draw>,
    rolls1: Seq<Seq<Resident>>,
    s1: Seq<bool>,
    l1: spec_fn(int, int, int) -> bool,
    c1: spec_fn(int, int, int) -> bool,
    rolls2: Seq<Seq<Resident>>,
    s2: Seq<bool>,
    l2: spec_fn(int, int, int) -> bool,
    c2: spec_fn(int, int, int) -> bool,
    upto: nat,
    whole: Seq<Draw>,
)
    requires
        upto <= rolls1.len() == s1.len(),
        upto <= rolls2.len() == s2.len(),
        numbered(rolls1),
        numbered(rolls2),
        forall|c: int|
            0 <= c < upto ==> (#[trigger] rolls1[c]).len() == size_for(plan, s1[c]),
        forall|c: int|
            0 <= c < upto ==> (#[trigger] rolls2[c]).len() == size_for(plan, s2[c]),
        grown_from(populations_record(log, rolls1, s1, l1, c1, upto), whole),
        grown_from(populations_record(log, rolls2, s2, l2, c2, upto), whole),
    ensures
        forall|c: int| 0 <= c < upto ==> #[trigger] rolls1[c] == rolls2[c],
        forall|c: int| 0 <= c < upto ==> #[trigger] s1[c] == s2[c],
        cities_links(rolls1, l1, c1, upto) == cities_links(rolls2, l2, c2, upto),
        populations_record(log, rolls1, s1, l1, c1, upto) == populations_record(
            log,
            rolls2,
            s2,
            l2,
            c2,
            upto,
        ),
    decreases upto,
{
    if upto > 0 {
        let k = (upto - 1) as nat;
        let q1 = populations_record(log, rolls1, s1, l1, c1, k);
        let q2 = populations_record(log, rolls2, s2, l2, c2, k);
        let links1 = cities_links(rolls1, l1, c1, k);
        let links2 = cities_links(rolls2, l2, c2, k);
        let r1 = rolls1[k as int];
        let r2 = rolls2[k as int];
        let f1 = q1.push(Draw::Flip(s1[k as int]));
        let f2 = q2.push(Draw::Flip(s2[k as int]));
        let after1 = populations_record(log, rolls1, s1, l1, c1, upto);
        let after2 = populations_record(log, rolls2, s2, l2, c2, upto);
        lemma_city_record_begins(f1, links1, r1, draws_in_city(l1, k as int), draws_in_city(c1, k as int));
        lemma_city_record_begins(f2, links2, r2, draws_in_city(l2, k as int), draws_in_city(c2, k as int));
        lemma_grown_chain(f1, after1, whole);
        lemma_grown_chain(f2, after2, whole);
        assert(grown_from(q1, f1));
        assert(grown_from(q2, f2));
        lemma_grown_chain(q1, f1, whole);
        lemma_grown_chain(q2, f2, whole);
        lemma_record_fixes_populations(plan, log, rolls1, s1, l1, c1, rolls2, s2, l2, c2, k, whole);
        assert(whole[q1.len() as int] == f1[q1.len() as int]);
        assert(whole[q1.len() as int] == f2[q1.len() as int]);
        assert(s1[k as int] == s2[k as int]);
        let n = r1.len();
        assert(r2.len() == n);
        // the residents: their draws stand behind the size draw
        let settled1 = f1 + settle_draws(r1, n);
        let settled2 = f1 + settle_draws(r2, n);
        let local1 = rows_record(Wiring::Local, links1, r1, draws_in_city(l1, k as int), n);
        let local2 = rows_record(Wiring::Local, links2, r2, draws_in_city(l2, k as int), n);
        let closure1 = rows_record(
            Wiring::Closure,
            after_pass(Wiring::Local, links1, r1, draws_in_city(l1, k as int)),
            r1,
            draws_in_city(c1, k as int),
            n,
        );
        let closure2 = rows_record(
            Wiring::Closure,
            after_pass(Wiring::Local, links2, r2, draws_in_city(l2, k as int)),
            r2,
            draws_in_city(c2, k as int),
            n,
        );
        lemma_beginning_of_beginning(settled1 + local1, closure1, whole);
        lemma_beginning_of_beginning(settled2 + local2, closure2, whole);
        lemma_beginning_of_beginning(settled1, local1, whole);
        lemma_beginning_of_beginning(settled2, local2, whole);
        lemma_settle_draws_len(r1, n);
        lemma_settle_draws_len(r2, n);
        lemma_same_beginning(settled1, settled2, whole);
        lemma_split_record(f1, settle_draws(r1, n), f1, settle_draws(r2, n));
        lemma_record_fixes_people(r1, r2, n);
        lemma_offset_same(rolls1, rolls2, k);
        assert forall|x: int| 0 <= x < n implies r1[x] == r2[x] by {
            assert(rolls1[k as int][x].node == offset(rolls1, k) + x);
            assert(rolls2[k as int][x].node == offset(rolls2, k) + x);
            assert(r1[x].person == r2[x].person);
        }
        assert(r1 =~= r2);
        lemma_record_fixes_city(
            f1,
            links1,
            r1,
            draws_in_city(l1, k as int),
            draws_in_city(c1, k as int),
            draws_in_city(l2, k as int),
            draws_in_city(c2, k as int),
            whole,
        );
    }
}

proof fn lemma_populations_begin(
    log: Seq<Draw>,
    rolls: Seq<Seq<Resident>>,
    smalls: Seq<bool>,
    l: spec_fn(int, int, int) -> bool,
    c: spec_fn(int, int, int) -> bool,
    upto: nat,
)
    ensures
        grown_from(log, populations_record(log, rolls, smalls, l, c, upto)),
    decreases upto,
{
    if upto > 0 {
        let k = (upto - 1) as nat;
        lemma_populations_begin(log, rolls, smalls, l, c, k);
        let q = populations_record(log, rolls, smalls, l, c, k);
        let f = q.push(Draw::Flip(smalls[k as int]));
        assert(grown_from(q, f));
        lemma_city_record_begins(
            f,
            cities_links(rolls, l, c, k),
            rolls[k as int],
            draws_in_city(l, k as int),
            draws_in_city(c, k as int),
        );
        lemma_grown_chain(q, f, populations_record(log, rolls, smalls, l, c, upto));
        lemma_grown_chain(log, q, populations_record(log, rolls, smalls, l, c, upto));
    }
}

/// The record fixes the world: two constructions of one plan that start
/// from the same record and leave the same record have generated the same
/// cities, settled the same residents at the same nodes, and made the same
/// links, bridges included.
pub proof fn lemma_record_fixes_world(
    plan: WorldPlan,
    log: Seq<Draw>,
    cities1: Seq<City>,
    rolls1: Seq<Seq<Resident>>,
    s1: Seq<bool>,
    l1: spec_fn(int, int, int) -> bool,
    c1: spec_fn(int, int, int) -> bool,
    cities2: Seq<City>,
    rolls2: Seq<Seq<Resident>>,
    s2: Seq<bool>,
    l2: spec_fn(int, int, int) -> bool,
    c2: spec_fn(int, int, int) -> bool,
)
    requires
        cities_built(plan, cities1, rolls1, s1),
        cities_built(plan, cities2, rolls2, s2),
        rolls1.len() == plan.cities,
        rolls2.len() == plan.cities,
        forall|c: int|
            0 <= c < cities1.len() ==> ((#[trigger] cities1[c]).radius == CAR_RADIUS
                || cities1[c].radius == BIKE_RADIUS),
        forall|c: int|
            0 <= c < cities2.len() ==> ((#[trigger] cities2[c]).radius == CAR_RADIUS
                || cities2[c].radius == BIKE_RADIUS),
        world_record(log, cities1, rolls1, s1, l1, c1) == world_record(
            log,
            cities2,
            rolls2,
            s2,
            l2,
            c2,
        ),
    ensures
        cities1 == cities2,
        rolls1 == rolls2,
        s1 == s2,
        world_links(rolls1, l1, c1) == world_links(rolls2, l2, c2),
{
    let n = plan.cities as nat;
    let whole = world_record(log, cities1, rolls1, s1, l1, c1);
    let f1 = founding_record(log, cities1, n);
    let f2 = founding_record(log, cities2, n);
    lemma_populations_begin(f1, rolls1, s1, l1, c1, n);
    lemma_populations_begin(f2, rolls2, s2, l2, c2, n);
    lemma_founding_len(log, cities1, n);
    lemma_founding_len(log, cities2, n);
    lemma_same_beginning(f1, f2, whole);
    lemma_record_fixes_cities(log, cities1, cities2, n);
    assert(cities1 =~= cities2);
    lemma_record_fixes_populations(plan, f1, rolls1, s1, l1, c1, rolls2, s2, l2, c2, n, whole);
    assert(rolls1 =~= rolls2);
    assert(s1 =~= s2);
}

/// Construction is reproducible from the draws: two worlds of one plan,
/// built from sources with the same record that have the same record
/// afterwards, have the same cities, the same residents at the same nodes
/// in every roster, and the same links.
pub proof fn lemma_same_draws_same_world(
    plan: WorldPlan,
    one: World,
    other: World,
    log0: Seq<Draw>,
    log1: Seq<Draw>,
)
    requires
        built(plan, one),
        built(plan, other),
        world_drawn(plan, one, log0, log1),
        world_drawn(plan, other, log0, log1),
    ensures
        cities_of(one.rosters@) == cities_of(other.rosters@),
        rolls(one.rosters@) == rolls(other.rosters@),
        one.graph.links() == other.graph.links(),
{
    let (s1, l1, c1) = choose|
        s: Seq<bool>,
        l: spec_fn(int, int, int) -> bool,
        c: spec_fn(int, int, int) -> bool,
    | #[trigger] world_ran(plan, one, s, l, c, log0, log1);
    let (s2, l2, c2) = choose|
        s: Seq<bool>,
        l: spec_fn(int, int, int) -> bool,
        c: spec_fn(int, int, int) -> bool,
    | #[trigger] world_ran(plan, other, s, l, c, log0, log1);
    let cities1 = cities_of(one.rosters@);
    let cities2 = cities_of(other.rosters@);
    let rolls1 = rolls(one.rosters@);
    let rolls2 = rolls(other.rosters@);
    assert forall|c: int| 0 <= c < cities1.len() implies ((#[trigger] cities1[c]).radius
        == CAR_RADIUS || cities1[c].radius == BIKE_RADIUS) by {
        assert(one.rosters@[c].city == cities1[c]);
    }
    assert forall|c: int| 0 <= c < cities2.len() implies ((#[trigger] cities2[c]).radius
        == CAR_RADIUS || cities2[c].radius == BIKE_RADIUS) by {
        assert(other.rosters@[c].city == cities2[c]);
    }
    assert(cities_built(plan, cities1, rolls1, s1));
    assert(cities_built(plan, cities2, rolls2, s2));
    lemma_record_fixes_world(plan, log0, cities1, rolls1, s1, l1, c1, cities2, rolls2, s2, l2, c2);
}

} // verus!
