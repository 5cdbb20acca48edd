//! The relay estimator: a message spreads from a start node by rounds in
//! which every node that holds it forwards it along one edge chosen at
//! random, until the destination holds it.

use vstd::prelude::*;
use crate::graph::{hops_at, isolated, lemma_no_hops, ContactGraph, Hop, Link, NodeHandle};
use crate::random::{Draw, RandomSource};

verus! {

/// A node that holds the message, with the arrival time recorded for it, in
/// hours. The recorded time is the one written last, not the smallest.
pub type Arrival = (u32, u64);

/// Why a relay round could not be completed.
#[derive(Clone, Copy, Debug, PartialEq, Eq, Structural)]
pub enum RelayError {
    /// The named node holds the message and has no edge to forward it along.
    NoIncidentEdge(NodeHandle),
    /// The arrival time forwarded by the named node exceeds 64 bits.
    TimeOverflow(NodeHandle),
    /// The picks handed over do not number one per holder.
    PickCount,
}

/// How a bounded run of the estimator ended.
#[derive(Clone, Copy, Debug, PartialEq, Eq, Structural)]
pub enum Outcome {
    /// The destination holds the message; the hours recorded for it.
    Delivered(u64),
    /// The round limit was used up before the destination held the message.
    NotReached,
}

/// Position of `node` among the holders, if it holds the message.
pub open spec fn slot_of(entries: Seq<Arrival>, node: u32) -> Option<int>
    decreases entries.len(),
{
    if entries.len() == 0 {
        None
    } else {
        match slot_of(entries.drop_last(), node) {
            Some(i) => Some(i),
            None => if entries.last().0 == node {
                Some(entries.len() - 1)
            } else {
                None
            },
        }
    }
}

/// The time recorded for `node`, if it holds the message.
pub open spec fn time_at(entries: Seq<Arrival>, node: u32) -> Option<u64> {
    match slot_of(entries, node) {
        Some(i) => Some(entries[i].1),
        None => None,
    }
}

/// The holders after `node` has been handed the message with time `hours`:
/// a holder has its time overwritten, whatever it was; a new holder joins at
/// the end.
pub open spec fn recorded(entries: Seq<Arrival>, node: u32, hours: u64) -> Seq<Arrival> {
    match slot_of(entries, node) {
        Some(i) => entries.update(i, (node, hours)),
        None => entries.push((node, hours)),
    }
}

/// Whether no node occurs twice among the holders.
pub open spec fn distinct_holders(entries: Seq<Arrival>) -> bool {
    forall|i: int, j: int|
        0 <= i < j < entries.len() ==> (#[trigger] entries[i]).0 != (#[trigger] entries[j]).0
}

/// Position of the first holder whose forwarded time does not fit in 64
/// bits, if there is one. `picks[k]` is the hop taken by holder `k`.
pub open spec fn first_overflow(base: Seq<Arrival>, picks: Seq<Hop>) -> Option<int>
    decreases base.len(),
{
    if base.len() == 0 || picks.len() != base.len() {
        None
    } else {
        match first_overflow(base.drop_last(), picks.drop_last()) {
            Some(i) => Some(i),
            None => if base.last().1 + picks.last().1 > u64::MAX {
                Some(base.len() - 1)
            } else {
                None
            },
        }
    }
}

/// The holders after the first `count` holders of `base` have each forwarded
/// the message along their pick. Every forwarded time starts from the time
/// that the forwarding holder had in `base`, and the records are merged in
/// holder order, a later one overwriting an earlier one.
pub open spec fn merged(base: Seq<Arrival>, picks: Seq<Hop>, count: nat) -> Seq<Arrival>
    decreases count,
{
    if count == 0 {
        base
    } else {
        let k = count - 1;
        recorded(merged(base, picks, k as nat), picks[k].0, (base[k].1 + picks[k].1) as u64)
    }
}

/// What one round makes of the holders `base` under the picks `picks`.
pub open spec fn round_result(base: Seq<Arrival>, picks: Seq<Hop>) -> Result<
    Seq<Arrival>,
    RelayError,
> {
    if picks.len() != base.len() {
        Err(RelayError::PickCount)
    } else {
        match first_overflow(base, picks) {
            Some(k) => Err(RelayError::TimeOverflow(base[k].0)),
            None => Ok(merged(base, picks, base.len())),
        }
    }
}

/// Whether `picks` names, for each holder of `base`, one of the hops that the
/// graph offers at that holder.
pub open spec fn picks_fit(links: Seq<Link>, base: Seq<Arrival>, picks: Seq<Hop>) -> bool {
    &&& picks.len() == base.len()
    &&& forall|k: int|
        0 <= k < base.len() ==> hops_at(links, (#[trigger] base[k]).0).contains(picks[k])
}

/// Position of the first holder at which no link ends, if there is one.
pub open spec fn first_stranded(links: Seq<Link>, base: Seq<Arrival>) -> Option<int>
    decreases base.len(),
{
    if base.len() == 0 {
        None
    } else {
        match first_stranded(links, base.drop_last()) {
            Some(i) => Some(i),
            None => if isolated(links, base.last().0) {
                Some(base.len() - 1)
            } else {
                None
            },
        }
    }
}

/// The holders, or the error, that an exec result stands for.
pub open spec fn seen(next: Result<RelayState, RelayError>) -> Result<Seq<Arrival>, RelayError> {
    match next {
        Ok(state) => Ok(state.entries()),
        Err(e) => Err(e),
    }
}

/// Whether one round from the holders `before` can end in `result`. Where a
/// holder is stranded the round fails at the first such holder; otherwise
/// some choice of one offered hop per holder gives `result`.
pub open spec fn can_yield(
    links: Seq<Link>,
    before: Seq<Arrival>,
    result: Result<Seq<Arrival>, RelayError>,
) -> bool {
    match first_stranded(links, before) {
        Some(k) => result == Err::<Seq<Arrival>, RelayError>(
            RelayError::NoIncidentEdge(before[k].0),
        ),
        None => exists|picks: Seq<Hop>| #[trigger]
            picks_fit(links, before, picks) && round_result(before, picks) == result,
    }
}

/// Whether one round can lead from the holders `before` to the holders
/// `after`.
pub open spec fn follows(links: Seq<Link>, before: Seq<Arrival>, after: Seq<Arrival>) -> bool {
    can_yield(links, before, Ok(after))
}

/// Whether `rounds` rounds can lead from the start to the holders `state`
/// without the destination holding the message before the last of them.
pub open spec fn run_reaches(
    links: Seq<Link>,
    start: u32,
    dest: u32,
    state: Seq<Arrival>,
    rounds: nat,
) -> bool
    decreases rounds,
{
    if rounds == 0 {
        state == seq![(start, 0u64)]
    } else {
        exists|prev: Seq<Arrival>|
            run_reaches(links, start, dest, prev, (rounds - 1) as nat) && #[trigger] relays_on(
                links,
                dest,
                prev,
                state,
            )
    }
}

/// Whether a run that stands at `prev` goes on, and one round can lead it to
/// `state`: the destination does not hold the message yet.
pub open spec fn relays_on(links: Seq<Link>, dest: u32, prev: Seq<Arrival>, state: Seq<Arrival>) -> bool {
    time_at(prev, dest) is None && follows(links, prev, state)
}

/// The record of draws after the first `upto` holders have each picked a
/// hop: behind the record `log` one pick per holder, among as many hops as
/// the graph offers at it.
pub open spec fn picks_record(log: Seq<Draw>, links: Seq<Link>, entries: Seq<Arrival>, upto: nat) -> Seq<
    Draw,
>
    decreases upto,
{
    if upto == 0 {
        log
    } else {
        picks_record(log, links, entries, (upto - 1) as nat).push(
            Draw::Pick(hops_at(links, entries[upto - 1].0).len() as usize),
        )
    }
}

/// The number of holders that pick in one round: all of them, or those up
/// to the first stranded one, which is asked too.
pub open spec fn picking_holders(links: Seq<Link>, entries: Seq<Arrival>) -> nat {
    match first_stranded(links, entries) {
        Some(k) => (k + 1) as nat,
        None => entries.len(),
    }
}

/// The record of draws after one round from the holders `entries`.
pub open spec fn round_record(log: Seq<Draw>, links: Seq<Link>, entries: Seq<Arrival>) -> Seq<Draw> {
    picks_record(log, links, entries, picking_holders(links, entries))
}

/// Whether a run that stands at `prev` with the record `before` goes on,
/// and one round can lead it to `state` with the record `log`.
pub open spec fn relays_on_record(
    links: Seq<Link>,
    dest: u32,
    prev: Seq<Arrival>,
    state: Seq<Arrival>,
    before: Seq<Draw>,
    log: Seq<Draw>,
) -> bool {
    relays_on(links, dest, prev, state) && log == round_record(before, links, prev)
}

/// Whether `rounds` rounds can lead from the start to the holders `state`
/// and from the record `log0` to the record `log`.
pub open spec fn run_drew(
    links: Seq<Link>,
    start: u32,
    dest: u32,
    state: Seq<Arrival>,
    rounds: nat,
    log0: Seq<Draw>,
    log: Seq<Draw>,
) -> bool
    decreases rounds,
{
    if rounds == 0 {
        state == seq![(start, 0u64)] && log == log0
    } else {
        exists|prev: Seq<Arrival>, before: Seq<Draw>|
            run_drew(links, start, dest, prev, (rounds - 1) as nat, log0, before)
                && #[trigger] relays_on_record(links, dest, prev, state, before, log)
    }
}

/// Whether a run that stands at `state` after `rounds` rounds, with the
/// record `log`, stops there with `outcome` and the record `log1`. A round
/// that fails has drawn its picks all the same.
pub open spec fn ends_on_record(
    links: Seq<Link>,
    start: u32,
    dest: u32,
    limit: u64,
    state: Seq<Arrival>,
    rounds: nat,
    outcome: Result<Outcome, RelayError>,
    log0: Seq<Draw>,
    log: Seq<Draw>,
    log1: Seq<Draw>,
) -> bool {
    &&& run_drew(links, start, dest, state, rounds, log0, log)
    &&& rounds <= limit
    &&& ends_with(links, dest, limit, state, rounds, outcome)
    &&& log1 == if outcome is Err {
        round_record(log, links, state)
    } else {
        log
    }
}

/// Whether a run bounded by `limit` rounds can end in `outcome`, having
/// turned the record of draws `log0` into `log1`: every round drew one pick
/// per holder.
pub open spec fn run_ends_on_record(
    links: Seq<Link>,
    start: u32,
    dest: u32,
    limit: u64,
    outcome: Result<Outcome, RelayError>,
    log0: Seq<Draw>,
    log1: Seq<Draw>,
) -> bool {
    exists|state: Seq<Arrival>, rounds: nat, log: Seq<Draw>| #[trigger]
        ends_on_record(links, start, dest, limit, state, rounds, outcome, log0, log, log1)
}

/// Whether a run bounded by `limit` rounds can end in `outcome`: some number
/// of completed rounds leads to holders from which `outcome` is read off.
pub open spec fn run_ends(
    links: Seq<Link>,
    start: u32,
    dest: u32,
    limit: u64,
    outcome: Result<Outcome, RelayError>,
) -> bool {
    exists|state: Seq<Arrival>, rounds: nat| #[trigger]
        run_reaches(links, start, dest, state, rounds) && rounds <= limit && ends_with(
            links,
            dest,
            limit,
            state,
            rounds,
            outcome,
        )
}

/// Whether a run that stands at `state` after `rounds` rounds stops there
/// with `outcome`.
pub open spec fn ends_with(
    links: Seq<Link>,
    dest: u32,
    limit: u64,
    state: Seq<Arrival>,
    rounds: nat,
    outcome: Result<Outcome, RelayError>,
) -> bool {
    match outcome {
        Ok(Outcome::Delivered(hours)) => time_at(state, dest) == Some(hours),
        Ok(Outcome::NotReached) => time_at(state, dest) is None && rounds == limit,
        Err(e) => time_at(state, dest) is None && rounds < limit && can_yield(
            links,
            state,
            Err(e),
        ),
    }
}

/// What the search for a holder returns: the only position that can hold
/// `node`, or `None` where `node` holds nothing.
pub proof fn lemma_slot_of(entries: Seq<Arrival>, node: u32)
    ensures
        match slot_of(entries, node) {
            Some(i) => 0 <= i < entries.len() && entries[i].0 == node && forall|j: int|
                0 <= j < i ==> (#[trigger] entries[j]).0 != node,
            None => forall|j: int| 0 <= j < entries.len() ==> (#[trigger] entries[j]).0 != node,
        },
    decreases entries.len(),
{
    if entries.len() > 0 {
        let init = entries.drop_last();
        lemma_slot_of(init, node);
        assert(forall|j: int| 0 <= j < init.len() ==> init[j] == entries[j]);
    }
}

/// Handing the message to a node keeps the holders free of repetition.
pub proof fn lemma_recorded_distinct(entries: Seq<Arrival>, node: u32, hours: u64)
    requires
        distinct_holders(entries),
    ensures
        distinct_holders(recorded(entries, node, hours)),
        recorded(entries, node, hours).len() >= entries.len(),
        recorded(entries, node, hours).len() <= entries.len() + 1,
        time_at(recorded(entries, node, hours), node) == Some(hours),
        forall|other: u32|
            other != node ==> time_at(recorded(entries, node, hours), other) == time_at(
                entries,
                other,
            ),
{
    lemma_slot_of(entries, node);
    let after = recorded(entries, node, hours);
    lemma_slot_of(after, node);
    assert forall|other: u32| other != node implies time_at(after, other) == time_at(
        entries,
        other,
    ) by {
        lemma_slot_of(entries, other);
        lemma_slot_of(after, other);
        match slot_of(entries, other) {
            Some(i) => {
                assert(after[i].0 == other);
            },
            None => {},
        }
        match slot_of(after, other) {
            Some(i) => {
                if i < entries.len() {
                    assert(entries[i].0 == other);
                }
            },
            None => {},
        }
    }
    match slot_of(entries, node) {
        Some(i) => {
            assert(after[i].0 == node);
        },
        None => {
            assert(after[entries.len() as int].0 == node);
        },
    }
}

/// A round keeps the holders free of repetition and drops none of them.
pub proof fn lemma_merged_distinct(base: Seq<Arrival>, picks: Seq<Hop>, count: nat)
    requires
        distinct_holders(base),
    ensures
        distinct_holders(merged(base, picks, count)),
        base.len() <= merged(base, picks, count).len() <= base.len() + count,
    decreases count,
{
    if count > 0 {
        let k = (count - 1) as nat;
        lemma_merged_distinct(base, picks, k);
        lemma_recorded_distinct(
            merged(base, picks, k),
            picks[k as int].0,
            (base[k as int].1 + picks[k as int].1) as u64,
        );
    }
}

/// What the search for an overflowing holder returns: the first position
/// whose forwarded time exceeds 64 bits, or `None` where every one fits.
pub proof fn lemma_first_overflow(base: Seq<Arrival>, picks: Seq<Hop>)
    requires
        picks.len() == base.len(),
    ensures
        match first_overflow(base, picks) {
            Some(i) => 0 <= i < base.len() && base[i].1 + picks[i].1 > u64::MAX && forall|j: int|
                0 <= j < i ==> (#[trigger] base[j]).1 + picks[j].1 <= u64::MAX,
            None => forall|j: int|
                0 <= j < base.len() ==> (#[trigger] base[j]).1 + picks[j].1 <= u64::MAX,
        },
    decreases base.len(),
{
    if base.len() > 0 {
        let init = base.drop_last();
        let head = picks.drop_last();
        lemma_first_overflow(init, head);
        assert(forall|j: int| 0 <= j < init.len() ==> init[j] == base[j] && head[j] == picks[j]);
    }
}

/// What the search for a stranded holder returns: the first position whose
/// node no link ends at, or `None` where every holder has a link.
pub proof fn lemma_first_stranded(links: Seq<Link>, base: Seq<Arrival>)
    ensures
        match first_stranded(links, base) {
            Some(i) => 0 <= i < base.len() && isolated(links, base[i].0) && forall|j: int|
                0 <= j < i ==> !isolated(links, (#[trigger] base[j]).0),
            None => forall|j: int| 0 <= j < base.len() ==> !isolated(links, (#[trigger] base[j]).0),
        },
    decreases base.len(),
{
    if base.len() > 0 {
        let init = base.drop_last();
        lemma_first_stranded(links, init);
        assert(forall|j: int| 0 <= j < init.len() ==> init[j] == base[j]);
    }
}

/// Hands the message to `node` with time `hours`.
fn record(entries: &mut Vec<Arrival>, node: NodeHandle, hours: u64)
    ensures
        final(entries)@ == recorded(old(entries)@, node, hours),
{
    let mut k: usize = 0;
    while k < entries.len()
        invariant
            k <= entries.len(),
            entries@ == old(entries)@,
            forall|j: int| 0 <= j < k ==> (#[trigger] entries@[j]).0 != node,
        decreases entries.len() - k,
    {
        if entries[k].0 == node {
            proof {
                lemma_slot_of(entries@, node);
            }
            entries.set(k, (node, hours));
            return ;
        }
        k += 1;
    }
    proof {
        lemma_slot_of(entries@, node);
    }
    entries.push((node, hours));
}

/// The nodes that hold the message, each with the arrival time recorded for
/// it, in the order in which they first received it.
pub struct RelayState {
    arrivals: Vec<Arrival>,
}

impl RelayState {
    #[verifier::type_invariant]
    spec fn no_holder_twice(&self) -> bool {
        distinct_holders(self.arrivals@)
    }

    /// The holders and their recorded times, in order of first arrival.
    pub closed spec fn entries(&self) -> Seq<Arrival> {
        self.arrivals@
    }

    /// The state in which only `start` holds the message, at hour zero.
    pub fn new(start: NodeHandle) -> (state: RelayState)
        ensures
            state.entries() == seq![(start, 0u64)],
    {
        let mut arrivals: Vec<Arrival> = Vec::new();
        arrivals.push((start, 0u64));
        assert(arrivals@ =~= seq![(start, 0u64)]);
        RelayState { arrivals }
    }

    /// The number of holders.
    pub fn holder_count(&self) -> (count: usize)
        ensures
            count == self.entries().len(),
    {
        self.arrivals.len()
    }

    /// The holders and their recorded times, in order of first arrival.
    pub fn arrival_list(&self) -> (list: Vec<Arrival>)
        ensures
            list@ == self.entries(),
    {
        let mut list: Vec<Arrival> = Vec::new();
        let mut k: usize = 0;
        while k < self.arrivals.len()
            invariant
                k <= self.arrivals.len(),
                list@ == self.arrivals@.take(k as int),
            decreases self.arrivals.len() - k,
        {
            list.push(self.arrivals[k]);
            assert(self.arrivals@.take(k + 1) =~= self.arrivals@.take(k as int).push(
                self.arrivals@[k as int],
            ));
            k += 1;
        }
        assert(self.arrivals@.take(k as int) =~= self.arrivals@);
        list
    }

    /// The time recorded for `node`, or `None` where it does not hold the
    /// message.
    pub fn arrival(&self, node: NodeHandle) -> (hours: Option<u64>)
        ensures
            hours == time_at(self.entries(), node),
    {
        let mut k: usize = 0;
        while k < self.arrivals.len()
            invariant
                k <= self.arrivals.len(),
                forall|j: int| 0 <= j < k ==> (#[trigger] self.arrivals@[j]).0 != node,
            decreases self.arrivals.len() - k,
        {
            if self.arrivals[k].0 == node {
                proof {
                    lemma_slot_of(self.arrivals@, node);
                }
                return Some(self.arrivals[k].1);
            }
            k += 1;
        }
        proof {
            lemma_slot_of(self.arrivals@, node);
        }
        None
    }

    /// One round under given picks: holder `k` forwards the message along
    /// `picks[k]`, with its own time at the start of the round plus the hours
    /// of the hop, and the records are merged in holder order, overwriting.
    pub fn advance(&self, picks: &Vec<Hop>) -> (next: Result<RelayState, RelayError>)
        ensures
            round_result(self.entries(), picks@) is Ok ==> next is Ok && Ok::<
                Seq<Arrival>,
                RelayError,
            >(next->Ok_0.entries()) == round_result(self.entries(), picks@),
            round_result(self.entries(), picks@) is Err ==> next is Err && next->Err_0
                == round_result(self.entries(), picks@)->Err_0,
    {
        proof {
            use_type_invariant(self);
        }
        let count = self.arrivals.len();
        if picks.len() != count {
            return Err(RelayError::PickCount);
        }
        let mut merged_so_far = self.arrival_list();
        let mut k: usize = 0;
        while k < count
            invariant
                k <= count,
                count == self.arrivals@.len(),
                picks@.len() == count,
                distinct_holders(self.arrivals@),
                merged_so_far@ == merged(self.arrivals@, picks@, k as nat),
                forall|j: int|
                    0 <= j < k ==> (#[trigger] self.arrivals@[j]).1 + picks@[j].1 <= u64::MAX,
            decreases count - k,
        {
            let (holder, held_since) = self.arrivals[k];
            let (target, hours) = picks[k];
            match held_since.checked_add(hours) {
                None => {
                    proof {
                        lemma_first_overflow(self.arrivals@, picks@);
                    }
                    return Err(RelayError::TimeOverflow(holder));
                },
                Some(due) => {
                    record(&mut merged_so_far, target, due);
                },
            }
            k += 1;
        }
        proof {
            lemma_first_overflow(self.arrivals@, picks@);
            lemma_merged_distinct(self.arrivals@, picks@, count as nat);
        }
        Ok(RelayState { arrivals: merged_so_far })
    }

    /// Draws, for every holder in turn, one of the hops that the graph
    /// offers at it, each hop with equal chance. Fails at the first holder
    /// that has none to offer.
    pub fn draw_picks(&self, graph: &ContactGraph, rng: &mut RandomSource) -> (picks: Result<
        Vec<Hop>,
        RelayError,
    >)
        ensures
            first_stranded(graph.links(), self.entries()) is None ==> picks is Ok && picks_fit(
                graph.links(),
                self.entries(),
                picks->Ok_0@,
            ),
            first_stranded(graph.links(), self.entries()) is Some ==> picks is Err && picks->Err_0
                == RelayError::NoIncidentEdge(
                self.entries()[first_stranded(graph.links(), self.entries())->0].0,
            ),
            final(rng).drawn() == round_record(old(rng).drawn(), graph.links(), self.entries()),
    {
        let mut picks: Vec<Hop> = Vec::new();
        let mut k: usize = 0;
        while k < self.arrivals.len()
            invariant
                k <= self.arrivals.len(),
                picks@.len() == k,
                rng.drawn() == picks_record(
                    old(rng).drawn(),
                    graph.links(),
                    self.arrivals@,
                    k as nat,
                ),
                forall|j: int|
                    0 <= j < k ==> !isolated(graph.links(), (#[trigger] self.arrivals@[j]).0)
                        && hops_at(graph.links(), self.arrivals@[j].0).contains(picks@[j]),
            decreases self.arrivals.len() - k,
        {
            let holder = self.arrivals[k].0;
            let hops = graph.hops(holder);
            proof {
                lemma_no_hops(graph.links(), holder);
            }
            match rng.pick(&hops) {
                None => {
                    proof {
                        lemma_first_stranded(graph.links(), self.arrivals@);
                    }
                    return Err(RelayError::NoIncidentEdge(holder));
                },
                Some(hop) => {
                    picks.push(hop);
                },
            }
            k += 1;
        }
        proof {
            lemma_first_stranded(graph.links(), self.arrivals@);
        }
        Ok(picks)
    }

    /// One round of the relay: every holder, including those of earlier
    /// rounds, forwards the message along one of its edges chosen at random,
    /// and the forwarded times overwrite what was recorded.
    pub fn relay_round(&self, graph: &ContactGraph, rng: &mut RandomSource) -> (next: Result<
        RelayState,
        RelayError,
    >)
        ensures
            can_yield(graph.links(), self.entries(), seen(next)),
            final(rng).drawn() == round_record(old(rng).drawn(), graph.links(), self.entries()),
    {
        match self.draw_picks(graph, rng) {
            Err(e) => Err(e),
            Ok(picks) => {
                let next = self.advance(&picks);
                assert(picks_fit(graph.links(), self.entries(), picks@) && round_result(
                    self.entries(),
                    picks@,
                ) == seen(next));
                next
            },
        }
    }
}

/// Estimates the hours that a message takes from `start` to `dest`: rounds
/// are relayed until `dest` holds the message, and the time recorded for it
/// is returned. At most `limit` rounds are relayed.
pub fn transmit(
    graph: &ContactGraph,
    rng: &mut RandomSource,
    start: NodeHandle,
    dest: NodeHandle,
    limit: u64,
) -> (outcome: Result<Outcome, RelayError>)
    ensures
        start == dest ==> outcome == Ok::<Outcome, RelayError>(Outcome::Delivered(0)),
        start == dest ==> final(rng).generator() == old(rng).generator() && final(rng).drawn()
            == old(rng).drawn(),
        run_ends(graph.links(), start, dest, limit, outcome),
        run_ends_on_record(
            graph.links(),
            start,
            dest,
            limit,
            outcome,
            old(rng).drawn(),
            final(rng).drawn(),
        ),
{
    let mut state = RelayState::new(start);
    let mut round: u64 = 0;
    proof {
        reveal_with_fuel(slot_of, 2);
        assert(seq![(start, 0u64)].drop_last() =~= Seq::<Arrival>::empty());
    }
    loop
        invariant
            round <= limit,
            run_reaches(graph.links(), start, dest, state.entries(), round as nat),
            run_drew(
                graph.links(),
                start,
                dest,
                state.entries(),
                round as nat,
                old(rng).drawn(),
                rng.drawn(),
            ),
            start == dest ==> round == 0 && time_at(state.entries(), dest) == Some(0u64),
            round == 0 ==> rng.generator() == old(rng).generator() && rng.drawn() == old(
                rng,
            ).drawn(),
        decreases limit - round,
    {
        match state.arrival(dest) {
            Some(hours) => {
                assert(ends_with(
                    graph.links(),
                    dest,
                    limit,
                    state.entries(),
                    round as nat,
                    Ok(Outcome::Delivered(hours)),
                ));
                assert(ends_on_record(
                    graph.links(),
                    start,
                    dest,
                    limit,
                    state.entries(),
                    round as nat,
                    Ok(Outcome::Delivered(hours)),
                    old(rng).drawn(),
                    rng.drawn(),
                    rng.drawn(),
                ));
                return Ok(Outcome::Delivered(hours));
            },
            None => {},
        }
        if round == limit {
            assert(ends_with(
                graph.links(),
                dest,
                limit,
                state.entries(),
                round as nat,
                Ok(Outcome::NotReached),
            ));
            assert(ends_on_record(
                graph.links(),
                start,
                dest,
                limit,
                state.entries(),
                round as nat,
                Ok(Outcome::NotReached),
                old(rng).drawn(),
                rng.drawn(),
                rng.drawn(),
            ));
            return Ok(Outcome::NotReached);
        }
        let ghost record = rng.drawn();
        match state.relay_round(graph, rng) {
            Err(e) => {
                assert(ends_with(graph.links(), dest, limit, state.entries(), round as nat, Err(e)));
                assert(ends_on_record(
                    graph.links(),
                    start,
                    dest,
                    limit,
                    state.entries(),
                    round as nat,
                    Err(e),
                    old(rng).drawn(),
                    record,
                    rng.drawn(),
                ));
                return Err(e);
            },
            Ok(next) => {
                proof {
                    let prev = state.entries();
                    assert(run_reaches(graph.links(), start, dest, prev, ((round + 1) - 1) as nat)
                        && relays_on(graph.links(), dest, prev, next.entries()));
                    assert(run_drew(
                        graph.links(),
                        start,
                        dest,
                        prev,
                        ((round + 1) - 1) as nat,
                        old(rng).drawn(),
                        record,
                    ) && relays_on_record(
                        graph.links(),
                        dest,
                        prev,
                        next.entries(),
                        record,
                        rng.drawn(),
                    ));
                }
                state = next;
                round += 1;
            },
        }
    }
}

} // verus!
