//! The graph builder: residents are settled city by city and wired by four
//! rules, and the cities are then chained together by their car owners.

use vstd::prelude::*;
use crate::entity::{person_draws, Person};
use crate::graph::{
    adjacent, edge_verdict, found_link, holds, lemma_found_link, lemma_neighbors_cover,
    overwritten, ContactGraph, GraphError, Link, NodeHandle, CAPACITY,
};
use crate::random::{
    grown_from, lemma_grown_twice, lemma_missed_earlier, missed, missed_since, Draw, RandomSource,
};

verus! {

/// Hours along a link between two residents of one city.
pub const LOCAL_HOURS: u64 = 1;

/// Hours along a link between two residents who are both online.
pub const SHORTCUT_HOURS: u64 = 0;

/// Hours along a link from a car owner to the next city's entry point.
pub const BRIDGE_HOURS: u64 = 3;

/// One resident in `LOCAL_ODDS_OUT_OF` ordered pairs is linked at random.
pub const LOCAL_ODDS: u32 = 1;

pub const LOCAL_ODDS_OUT_OF: u32 = 100;

/// One in `CLOSURE_ODDS_OUT_OF` open triangles is closed.
pub const CLOSURE_ODDS: u32 = 1;

pub const CLOSURE_ODDS_OUT_OF: u32 = 10;

/// A person together with the node that carries them.
#[derive(Clone, Copy, Debug, PartialEq, Eq, Structural)]
pub struct Resident {
    pub person: Person,
    pub node: NodeHandle,
}

/// Why the graph could not be built further.
#[derive(Clone, Copy, Debug, PartialEq, Eq, Structural)]
pub enum BuildError {
    /// The graph cannot hold the nodes asked for.
    NodeLimit,
    /// The graph cannot hold another edge.
    EdgeLimit,
    /// A resident names a node that the graph does not have.
    UnknownNode,
    /// A city that car owners should drive to has no resident to receive them.
    EmptyCity,
}

/// The three rules that wire the residents of one city among themselves.
#[derive(Clone, Copy, Debug, PartialEq, Eq, Structural)]
pub enum Wiring {
    /// Any two residents, at random.
    Local,
    /// Two residents who are not linked and have a neighbour in common, at
    /// random.
    Closure,
    /// Any two residents who are both online, always.
    Shortcut,
}

/// Whether `a` and `b` have a neighbour in common.
pub open spec fn share_neighbor(links: Seq<Link>, a: u32, b: u32) -> bool {
    exists|x: u32| #[trigger] adjacent(links, a, x) && adjacent(links, b, x)
}

/// Whether the rule `pass` considers the ordered pair `(a, b)` in a graph
/// with the links `links`.
pub open spec fn wants_link(pass: Wiring, links: Seq<Link>, a: Resident, b: Resident) -> bool {
    a.person.id != b.person.id && match pass {
        Wiring::Local => true,
        Wiring::Closure => !adjacent(links, a.node, b.node) && share_neighbor(
            links,
            a.node,
            b.node,
        ),
        Wiring::Shortcut => a.person.has_net_now && b.person.has_net_now,
    }
}

/// The links after the rule `pass` has handled the ordered pair `(a, b)`.
/// `draw` is the outcome of the random draw, which only a considered pair of
/// a random rule consults.
pub open spec fn after_pair(pass: Wiring, links: Seq<Link>, a: Resident, b: Resident, draw: bool) -> Seq<
    Link,
> {
    if !wants_link(pass, links, a, b) {
        links
    } else if pass == Wiring::Shortcut {
        overwritten(links, a.node, b.node, SHORTCUT_HOURS)
    } else if draw {
        links.push((a.node, b.node, LOCAL_HOURS))
    } else {
        links
    }
}

/// The links after the rule has handled the pairs of resident `i` with the
/// first `cols` residents, in order. Each pair sees what the pairs before it
/// left.
pub open spec fn after_row(
    pass: Wiring,
    links: Seq<Link>,
    residents: Seq<Resident>,
    draws: spec_fn(int, int) -> bool,
    i: int,
    cols: nat,
) -> Seq<Link>
    decreases cols,
{
    if cols == 0 {
        links
    } else {
        after_pair(
            pass,
            after_row(pass, links, residents, draws, i, (cols - 1) as nat),
            residents[i],
            residents[cols - 1],
            draws(i, cols - 1),
        )
    }
}

/// The links after the rule has handled every ordered pair whose first
/// member is among the first `rows` residents.
pub open spec fn after_rows(
    pass: Wiring,
    links: Seq<Link>,
    residents: Seq<Resident>,
    draws: spec_fn(int, int) -> bool,
    rows: nat,
) -> Seq<Link>
    decreases rows,
{
    if rows == 0 {
        links
    } else {
        after_row(
            pass,
            after_rows(pass, links, residents, draws, (rows - 1) as nat),
            residents,
            draws,
            rows - 1,
            residents.len(),
        )
    }
}

/// The links after the rule has handled every ordered pair of residents.
pub open spec fn after_pass(
    pass: Wiring,
    links: Seq<Link>,
    residents: Seq<Resident>,
    draws: spec_fn(int, int) -> bool,
) -> Seq<Link> {
    after_rows(pass, links, residents, draws, residents.len())
}

/// The links after the rule has handled the pairs that come before
/// `(i, j)` in row order.
pub open spec fn after_pairs_before(
    pass: Wiring,
    links: Seq<Link>,
    residents: Seq<Resident>,
    draws: spec_fn(int, int) -> bool,
    i: nat,
    j: nat,
) -> Seq<Link> {
    after_row(pass, after_rows(pass, links, residents, draws, i), residents, draws, i as int, j)
}

/// Whether `later` keeps the links of `earlier` in place and follows them
/// only with links of `hours` hours.
pub open spec fn extended_by(earlier: Seq<Link>, later: Seq<Link>, hours: u64) -> bool {
    &&& earlier.len() <= later.len()
    &&& forall|k: int| 0 <= k < earlier.len() ==> #[trigger] later[k] == earlier[k]
    &&& forall|k: int| earlier.len() <= k < later.len() ==> (#[trigger] later[k]).2 == hours
}

/// Whether `later` keeps the endpoints of every link of `earlier` in place,
/// changes a weight only to `hours`, and follows them only with links of
/// `hours` hours.
pub open spec fn rewritten_to(earlier: Seq<Link>, later: Seq<Link>, hours: u64) -> bool {
    &&& earlier.len() <= later.len()
    &&& forall|k: int|
        0 <= k < earlier.len() ==> (#[trigger] later[k]).0 == earlier[k].0 && later[k].1
            == earlier[k].1 && (later[k].2 == earlier[k].2 || later[k].2 == hours)
    &&& forall|k: int| earlier.len() <= k < later.len() ==> (#[trigger] later[k]).2 == hours
}

/// Whether every resident names a node among the first `nodes` handles.
pub open spec fn all_known(residents: Seq<Resident>, nodes: nat) -> bool {
    forall|k: int| 0 <= k < residents.len() ==> (#[trigger] residents[k]).node < nodes
}

/// A pair leaves the links longer by at most one, and what a random rule
/// adds has the local weight.
pub proof fn lemma_after_pair(pass: Wiring, links: Seq<Link>, a: Resident, b: Resident, draw: bool)
    ensures
        links.len() <= after_pair(pass, links, a, b, draw).len() <= links.len() + 1,
        pass != Wiring::Shortcut ==> extended_by(
            links,
            after_pair(pass, links, a, b, draw),
            LOCAL_HOURS,
        ),
        pass == Wiring::Shortcut ==> rewritten_to(
            links,
            after_pair(pass, links, a, b, draw),
            SHORTCUT_HOURS,
        ),
{
    lemma_found_link(links, a.node, b.node);
}

/// A row of pairs leaves the links longer by at most one per pair.
pub proof fn lemma_after_row(
    pass: Wiring,
    links: Seq<Link>,
    residents: Seq<Resident>,
    draws: spec_fn(int, int) -> bool,
    i: int,
    cols: nat,
)
    ensures
        links.len() <= after_row(pass, links, residents, draws, i, cols).len() <= links.len()
            + cols,
        pass != Wiring::Shortcut ==> extended_by(
            links,
            after_row(pass, links, residents, draws, i, cols),
            LOCAL_HOURS,
        ),
        pass == Wiring::Shortcut ==> rewritten_to(
            links,
            after_row(pass, links, residents, draws, i, cols),
            SHORTCUT_HOURS,
        ),
    decreases cols,
{
    if cols > 0 {
        let before = after_row(pass, links, residents, draws, i, (cols - 1) as nat);
        lemma_after_row(pass, links, residents, draws, i, (cols - 1) as nat);
        lemma_after_pair(pass, before, residents[i], residents[cols - 1], draws(i, cols - 1));
    }
}

/// Whole rows of pairs leave the links longer by at most one per pair.
pub proof fn lemma_after_rows(
    pass: Wiring,
    links: Seq<Link>,
    residents: Seq<Resident>,
    draws: spec_fn(int, int) -> bool,
    rows: nat,
)
    ensures
        links.len() <= after_rows(pass, links, residents, draws, rows).len() <= links.len() + rows
            * residents.len(),
        pass != Wiring::Shortcut ==> extended_by(
            links,
            after_rows(pass, links, residents, draws, rows),
            LOCAL_HOURS,
        ),
        pass == Wiring::Shortcut ==> rewritten_to(
            links,
            after_rows(pass, links, residents, draws, rows),
            SHORTCUT_HOURS,
        ),
    decreases rows,
{
    if rows > 0 {
        let before = after_rows(pass, links, residents, draws, (rows - 1) as nat);
        lemma_after_rows(pass, links, residents, draws, (rows - 1) as nat);
        lemma_after_row(pass, before, residents, draws, rows - 1, residents.len());
        assert((rows - 1) * residents.len() + residents.len() == rows * residents.len())
            by (nonlinear_arith);
    } else {
        assert(0 * residents.len() == 0) by (nonlinear_arith);
    }
}

/// A row depends on the draws of its own pairs only.
pub proof fn lemma_row_frame(
    pass: Wiring,
    links: Seq<Link>,
    residents: Seq<Resident>,
    d1: spec_fn(int, int) -> bool,
    d2: spec_fn(int, int) -> bool,
    i: int,
    cols: nat,
)
    requires
        forall|y: int| 0 <= y < cols ==> #[trigger] d1(i, y) == d2(i, y),
    ensures
        after_row(pass, links, residents, d1, i, cols) == after_row(
            pass,
            links,
            residents,
            d2,
            i,
            cols,
        ),
    decreases cols,
{
    if cols > 0 {
        lemma_row_frame(pass, links, residents, d1, d2, i, (cols - 1) as nat);
        assert(d1(i, cols - 1) == d2(i, cols - 1));
    }
}

/// Whole rows depend on the draws of their own pairs only.
pub proof fn lemma_rows_frame(
    pass: Wiring,
    links: Seq<Link>,
    residents: Seq<Resident>,
    d1: spec_fn(int, int) -> bool,
    d2: spec_fn(int, int) -> bool,
    rows: nat,
)
    requires
        forall|x: int, y: int|
            0 <= x < rows && 0 <= y < residents.len() ==> #[trigger] d1(x, y) == d2(x, y),
    ensures
        after_rows(pass, links, residents, d1, rows) == after_rows(
            pass,
            links,
            residents,
            d2,
            rows,
        ),
    decreases rows,
{
    if rows > 0 {
        lemma_rows_frame(pass, links, residents, d1, d2, (rows - 1) as nat);
        lemma_row_frame(
            pass,
            after_rows(pass, links, residents, d1, (rows - 1) as nat),
            residents,
            d1,
            d2,
            rows - 1,
            residents.len(),
        );
    }
}

/// The draws of a rule that makes none.
pub open spec fn no_draws() -> spec_fn(int, int) -> bool {
    |i: int, j: int| false
}

/// The links after the shortcut rule has handled every ordered pair of
/// residents.
pub open spec fn shortcut_links(links: Seq<Link>, residents: Seq<Resident>) -> Seq<Link> {
    after_pass(Wiring::Shortcut, links, residents, no_draws())
}

/// Whether a pass of the rule `pass` over `residents` can have turned the
/// links `before` of a graph with `nodes` nodes into the links `after`,
/// ending in `outcome`.
pub open spec fn wired(
    pass: Wiring,
    nodes: nat,
    before: Seq<Link>,
    after: Seq<Link>,
    residents: Seq<Resident>,
    outcome: Result<(), BuildError>,
) -> bool {
    if !all_known(residents, nodes) {
        outcome == Err::<(), BuildError>(BuildError::UnknownNode) && after == before
    } else {
        match outcome {
            Ok(_) => exists|draws: spec_fn(int, int) -> bool|
                after == #[trigger] after_pass(pass, before, residents, draws),
            Err(e) => e == BuildError::EdgeLimit && before.len() + residents.len()
                * residents.len() > CAPACITY && exists|
                draws: spec_fn(int, int) -> bool,
                i: nat,
                j: nat,
            | #[trigger] stall_at(pass, before, after, residents, draws, i, j),
        }
    }
}

/// Whether the pair `(a, b)` under the draw `draw` asks for one more link
/// than the graph holds.
pub open spec fn needs_append(pass: Wiring, links: Seq<Link>, a: Resident, b: Resident, draw: bool) -> bool {
    after_pair(pass, links, a, b, draw).len() == links.len() + 1
}

/// Whether a pass that started from the links `before` stalled at the pair
/// `(i, j)` with the links `after`: the pairs before it were handled, this
/// one asks for one more link, and the graph is full.
pub open spec fn stall_at(
    pass: Wiring,
    before: Seq<Link>,
    after: Seq<Link>,
    residents: Seq<Resident>,
    draws: spec_fn(int, int) -> bool,
    i: nat,
    j: nat,
) -> bool {
    &&& i < residents.len()
    &&& j < residents.len()
    &&& after == after_pairs_before(pass, before, residents, draws, i, j)
    &&& after.len() >= CAPACITY
    &&& needs_append(pass, after, residents[i as int], residents[j as int], draws(i as int, j as int))
}

/// The links after a pair that the rule considers has been handled: the
/// shortcut rule sets a shortcut, a random rule appends a local link where
/// the draw says so.
pub open spec fn linked(pass: Wiring, links: Seq<Link>, a: u32, b: u32, draw: bool) -> Seq<Link> {
    if pass == Wiring::Shortcut {
        overwritten(links, a, b, SHORTCUT_HOURS)
    } else if draw {
        links.push((a, b, LOCAL_HOURS))
    } else {
        links
    }
}

/// The error of the builder that an error of the graph stands for.
pub open spec fn build_error_of(e: GraphError) -> BuildError {
    match e {
        GraphError::UnknownNode => BuildError::UnknownNode,
        GraphError::EdgeLimit => BuildError::EdgeLimit,
    }
}

/// Whether a pair that the rule considers can be handled in a graph with
/// `nodes` nodes and the links `links`.
pub open spec fn link_verdict(
    pass: Wiring,
    nodes: nat,
    links: Seq<Link>,
    a: u32,
    b: u32,
    draw: bool,
) -> Result<(), BuildError> {
    if pass != Wiring::Shortcut && !draw {
        Ok(())
    } else {
        match edge_verdict(
            nodes,
            links.len(),
            a,
            b,
            pass == Wiring::Shortcut && found_link(links, a, b) is Some,
        ) {
            Ok(_) => Ok(()),
            Err(e) => Err(build_error_of(e)),
        }
    }
}

/// Whether the ordered pair `(a, b)` can be handled under the rule `pass`.
pub open spec fn pair_verdict(
    pass: Wiring,
    nodes: nat,
    links: Seq<Link>,
    a: Resident,
    b: Resident,
    draw: bool,
) -> Result<(), BuildError> {
    if wants_link(pass, links, a, b) {
        link_verdict(pass, nodes, links, a.node, b.node, draw)
    } else {
        Ok(())
    }
}

/// Whether the two lists have a member in common.
pub fn share_member(xs: &Vec<u32>, ys: &Vec<u32>) -> (shared: bool)
    ensures
        shared <==> exists|x: u32| #[trigger] xs@.contains(x) && ys@.contains(x),
{
    let mut k: usize = 0;
    while k < xs.len()
        invariant
            k <= xs.len(),
            forall|j: int| 0 <= j < k ==> !ys@.contains(#[trigger] xs@[j]),
        decreases xs.len() - k,
    {
        if holds(ys, xs[k]) {
            assert(xs@.contains(xs@[k as int]));
            return true;
        }
        k += 1;
    }
    false
}

/// Whether every resident names a node of the graph.
pub fn knows_all(graph: &ContactGraph, residents: &Vec<Resident>) -> (known: bool)
    ensures
        known == all_known(residents@, graph.people().len()),
{
    let nodes = graph.node_count();
    let mut k: usize = 0;
    while k < residents.len()
        invariant
            k <= residents.len(),
            nodes == graph.people().len(),
            forall|j: int| 0 <= j < k ==> (#[trigger] residents@[j]).node < nodes,
        decreases residents.len() - k,
    {
        if residents[k].node as usize >= nodes {
            return false;
        }
        k += 1;
    }
    true
}

/// Whether the rule `pass` considers the ordered pair `(a, b)` in the graph
/// as it stands.
pub fn considers(graph: &ContactGraph, a: Resident, b: Resident, pass: Wiring) -> (wanted: bool)
    ensures
        wanted == wants_link(pass, graph.links(), a, b),
{
    if a.person.id == b.person.id {
        return false;
    }
    match pass {
        Wiring::Local => true,
        Wiring::Shortcut => a.person.has_net_now && b.person.has_net_now,
        Wiring::Closure => {
            let near_a = graph.neighbors(a.node);
            let near_b = graph.neighbors(b.node);
            proof {
                let links = graph.links();
                assert forall|x: u32| near_a@.contains(x) == adjacent(links, a.node, x) by {
                    lemma_neighbors_cover(links, a.node, x);
                }
                assert forall|x: u32| near_b@.contains(x) == adjacent(links, b.node, x) by {
                    lemma_neighbors_cover(links, b.node, x);
                }
            }
            let linked = holds(&near_a, b.node);
            let shared = share_member(&near_a, &near_b);
            proof {
                let links = graph.links();
                if shared {
                    let x = choose|x: u32| #[trigger] near_a@.contains(x) && near_b@.contains(x);
                    assert(adjacent(links, a.node, x) && adjacent(links, b.node, x));
                }
                if share_neighbor(links, a.node, b.node) {
                    let x = choose|x: u32| #[trigger]
                        adjacent(links, a.node, x) && adjacent(links, b.node, x);
                    assert(near_a@.contains(x) && near_b@.contains(x));
                }
            }
            !linked && shared
        },
    }
}

/// The odds, as `(numerator, denominator)`, with which a random rule links a
/// pair that it considers. The shortcut rule links every such pair.
pub open spec fn odds_of(pass: Wiring) -> (u32, u32) {
    match pass {
        Wiring::Local => (LOCAL_ODDS, LOCAL_ODDS_OUT_OF),
        Wiring::Closure => (CLOSURE_ODDS, CLOSURE_ODDS_OUT_OF),
        Wiring::Shortcut => (1u32, 1u32),
    }
}

/// Whether `later` is the record `earlier` followed only by draws with the
/// odds `ratio`.
pub open spec fn drew_with(earlier: Seq<Draw>, later: Seq<Draw>, ratio: (u32, u32)) -> bool {
    &&& grown_from(earlier, later)
    &&& forall|k: int|
        earlier.len() <= k < later.len() ==> (#[trigger] later[k]) is Chance && later[k]->Chance_0
            == ratio.0 && later[k]->Chance_1 == ratio.1
}

/// The odds, as `(numerator, denominator)`, with which a random rule links a
/// pair that it considers. The shortcut rule links every such pair.
pub fn odds(pass: Wiring) -> (ratio: (u32, u32))
    ensures
        ratio == odds_of(pass),
{
    match pass {
        Wiring::Local => (LOCAL_ODDS, LOCAL_ODDS_OUT_OF),
        Wiring::Closure => (CLOSURE_ODDS, CLOSURE_ODDS_OUT_OF),
        Wiring::Shortcut => (1, 1),
    }
}

/// Handles a pair that the rule `pass` considers, given the outcome of its
/// draw: the shortcut rule sets a shortcut between the two nodes, a random
/// rule appends a local link where the draw came out true.
pub fn place_link(graph: &mut ContactGraph, a: NodeHandle, b: NodeHandle, pass: Wiring, draw: bool) -> (outcome:
    Result<(), BuildError>)
    ensures
        final(graph).people() == old(graph).people(),
        outcome == link_verdict(pass, old(graph).people().len(), old(graph).links(), a, b, draw),
        outcome is Ok ==> final(graph).links() == linked(pass, old(graph).links(), a, b, draw),
        outcome is Err ==> final(graph).links() == old(graph).links(),
{
    let placed = match pass {
        Wiring::Shortcut => graph.update_edge(a, b, SHORTCUT_HOURS),
        _ => {
            if !draw {
                return Ok(());
            }
            graph.add_edge(a, b, LOCAL_HOURS)
        },
    };
    match placed {
        Ok(_) => Ok(()),
        Err(GraphError::UnknownNode) => Err(BuildError::UnknownNode),
        Err(GraphError::EdgeLimit) => Err(BuildError::EdgeLimit),
    }
}

/// Handles the ordered pair `(a, b)` under the rule `pass`, given the
/// outcome of the draw that the rule would make for it: nothing changes
/// unless the rule considers the pair.
pub fn apply_pair(graph: &mut ContactGraph, a: Resident, b: Resident, pass: Wiring, draw: bool) -> (outcome:
    Result<(), BuildError>)
    ensures
        final(graph).people() == old(graph).people(),
        outcome == pair_verdict(pass, old(graph).people().len(), old(graph).links(), a, b, draw),
        outcome is Ok ==> final(graph).links() == after_pair(pass, old(graph).links(), a, b, draw),
        outcome is Err ==> final(graph).links() == old(graph).links(),
{
    if considers(graph, a, b, pass) {
        place_link(graph, a.node, b.node, pass, draw)
    } else {
        Ok(())
    }
}

/// The draw that the rule `pass` makes for the ordered pair `(a, b)` in a
/// graph with the links `links`: one draw with the odds of the rule where a
/// random rule considers the pair, none otherwise.
pub open spec fn pair_record(pass: Wiring, links: Seq<Link>, a: Resident, b: Resident, draw: bool) -> Seq<
    Draw,
> {
    if pass != Wiring::Shortcut && wants_link(pass, links, a, b) {
        seq![Draw::Chance(odds_of(pass).0, odds_of(pass).1, draw)]
    } else {
        Seq::empty()
    }
}

/// The draws that the rule makes for the pairs of resident `i` with the
/// first `cols` residents, in order. Whether a pair is considered is read
/// in the links as the pairs before it left them.
pub open spec fn row_record(
    pass: Wiring,
    links: Seq<Link>,
    residents: Seq<Resident>,
    draws: spec_fn(int, int) -> bool,
    i: int,
    cols: nat,
) -> Seq<Draw>
    decreases cols,
{
    if cols == 0 {
        Seq::empty()
    } else {
        row_record(pass, links, residents, draws, i, (cols - 1) as nat) + pair_record(
            pass,
            after_row(pass, links, residents, draws, i, (cols - 1) as nat),
            residents[i],
            residents[cols - 1],
            draws(i, cols - 1),
        )
    }
}

/// The draws that the rule makes for every ordered pair whose first member
/// is among the first `rows` residents.
pub open spec fn rows_record(
    pass: Wiring,
    links: Seq<Link>,
    residents: Seq<Resident>,
    draws: spec_fn(int, int) -> bool,
    rows: nat,
) -> Seq<Draw>
    decreases rows,
{
    if rows == 0 {
        Seq::empty()
    } else {
        rows_record(pass, links, residents, draws, (rows - 1) as nat) + row_record(
            pass,
            after_rows(pass, links, residents, draws, (rows - 1) as nat),
            residents,
            draws,
            rows - 1,
            residents.len(),
        )
    }
}

/// The draws that the rule makes for the pairs that come before `(i, j)` in
/// row order.
pub open spec fn record_before(
    pass: Wiring,
    links: Seq<Link>,
    residents: Seq<Resident>,
    draws: spec_fn(int, int) -> bool,
    i: nat,
    j: nat,
) -> Seq<Draw> {
    rows_record(pass, links, residents, draws, i) + row_record(
        pass,
        after_rows(pass, links, residents, draws, i),
        residents,
        draws,
        i as int,
        j,
    )
}

/// Whether a pass under the draws `draws` ran in full: it turned the links
/// `before` into `after` and the record `log0` into `log1`, one draw behind
/// the other for every pair that it considered.
pub open spec fn ran_in_full(
    pass: Wiring,
    before: Seq<Link>,
    after: Seq<Link>,
    residents: Seq<Resident>,
    draws: spec_fn(int, int) -> bool,
    log0: Seq<Draw>,
    log1: Seq<Draw>,
) -> bool {
    &&& after == after_pass(pass, before, residents, draws)
    &&& log1 == log0 + rows_record(pass, before, residents, draws, residents.len())
}

/// Whether a pass under the draws `draws` stalled at the pair `(i, j)`: the
/// record holds the draws of the pairs before it and its own.
pub open spec fn stalled_on_record(
    pass: Wiring,
    before: Seq<Link>,
    after: Seq<Link>,
    residents: Seq<Resident>,
    draws: spec_fn(int, int) -> bool,
    i: nat,
    j: nat,
    log0: Seq<Draw>,
    log1: Seq<Draw>,
) -> bool {
    &&& stall_at(pass, before, after, residents, draws, i, j)
    &&& log1 == log0 + record_before(pass, before, residents, draws, i, j + 1)
}

/// Whether a pass of the rule `pass` over `residents` can have turned the
/// links `before` into `after` and the record of draws `log0` into `log1`,
/// ending in `outcome`: links and record follow the same draws.
pub open spec fn wired_on_record(
    pass: Wiring,
    nodes: nat,
    before: Seq<Link>,
    after: Seq<Link>,
    residents: Seq<Resident>,
    outcome: Result<(), BuildError>,
    log0: Seq<Draw>,
    log1: Seq<Draw>,
) -> bool {
    if !all_known(residents, nodes) {
        outcome == Err::<(), BuildError>(BuildError::UnknownNode) && after == before && log1
            == log0
    } else {
        match outcome {
            Ok(_) => exists|draws: spec_fn(int, int) -> bool| #[trigger]
                ran_in_full(pass, before, after, residents, draws, log0, log1),
            Err(e) => e == BuildError::EdgeLimit && exists|
                draws: spec_fn(int, int) -> bool,
                i: nat,
                j: nat,
            | #[trigger] stalled_on_record(pass, before, after, residents, draws, i, j, log0, log1),
        }
    }
}

/// The draws of a row depend on the draws of its own pairs only.
pub proof fn lemma_row_record_frame(
    pass: Wiring,
    links: Seq<Link>,
    residents: Seq<Resident>,
    d1: spec_fn(int, int) -> bool,
    d2: spec_fn(int, int) -> bool,
    i: int,
    cols: nat,
)
    requires
        forall|y: int| 0 <= y < cols ==> #[trigger] d1(i, y) == d2(i, y),
    ensures
        row_record(pass, links, residents, d1, i, cols) == row_record(
            pass,
            links,
            residents,
            d2,
            i,
            cols,
        ),
    decreases cols,
{
    if cols > 0 {
        lemma_row_record_frame(pass, links, residents, d1, d2, i, (cols - 1) as nat);
        lemma_row_frame(pass, links, residents, d1, d2, i, (cols - 1) as nat);
        assert(d1(i, cols - 1) == d2(i, cols - 1));
    }
}

/// The draws of whole rows depend on the draws of their own pairs only.
pub proof fn lemma_rows_record_frame(
    pass: Wiring,
    links: Seq<Link>,
    residents: Seq<Resident>,
    d1: spec_fn(int, int) -> bool,
    d2: spec_fn(int, int) -> bool,
    rows: nat,
)
    requires
        forall|x: int, y: int|
            0 <= x < rows && 0 <= y < residents.len() ==> #[trigger] d1(x, y) == d2(x, y),
    ensures
        rows_record(pass, links, residents, d1, rows) == rows_record(
            pass,
            links,
            residents,
            d2,
            rows,
        ),
    decreases rows,
{
    if rows > 0 {
        lemma_rows_record_frame(pass, links, residents, d1, d2, (rows - 1) as nat);
        lemma_rows_frame(pass, links, residents, d1, d2, (rows - 1) as nat);
        lemma_row_record_frame(
            pass,
            after_rows(pass, links, residents, d1, (rows - 1) as nat),
            residents,
            d1,
            d2,
            rows - 1,
            residents.len(),
        );
    }
}

/// Runs one of the two random rules over every ordered pair of residents.
fn wire_at_random(
    graph: &mut ContactGraph,
    rng: &mut RandomSource,
    residents: &Vec<Resident>,
    pass: Wiring,
) -> (outcome: Result<(), BuildError>)
    requires
        pass != Wiring::Shortcut,
    ensures
        final(graph).people() == old(graph).people(),
        wired(
            pass,
            old(graph).people().len(),
            old(graph).links(),
            final(graph).links(),
            residents@,
            outcome,
        ),
        wired_on_record(
            pass,
            old(graph).people().len(),
            old(graph).links(),
            final(graph).links(),
            residents@,
            outcome,
            old(rng).drawn(),
            final(rng).drawn(),
        ),
        drew_with(old(rng).drawn(), final(rng).drawn(), odds_of(pass)),
        all_known(residents@, old(graph).people().len()) && missed_since(
            final(rng).drawn(),
            old(rng).drawn().len(),
        ) ==> outcome is Ok && final(graph).links() == old(graph).links(),
{
    if !knows_all(graph, residents) {
        return Err(BuildError::UnknownNode);
    }
    let n = residents.len();
    let (numerator, denominator) = odds(pass);
    let ghost base = graph.links();
    let ghost mut draws: spec_fn(int, int) -> bool = |x: int, y: int| false;
    let mut i: usize = 0;
    assert(rng.drawn() =~= old(rng).drawn() + rows_record(pass, base, residents@, draws, 0));
    while i < n
        invariant
            i <= n,
            n == residents@.len(),
            pass != Wiring::Shortcut,
            0 < denominator,
            numerator <= denominator,
            (numerator, denominator) == odds_of(pass),
            base == old(graph).links(),
            graph.people() == old(graph).people(),
            all_known(residents@, graph.people().len()),
            graph.links() == after_rows(pass, base, residents@, draws, i as nat),
            rng.drawn() == old(rng).drawn() + rows_record(pass, base, residents@, draws, i as nat),
            drew_with(old(rng).drawn(), rng.drawn(), odds_of(pass)),
            missed_since(rng.drawn(), old(rng).drawn().len()) ==> graph.links() == base,
        decreases n - i,
    {
        let mut j: usize = 0;
        assert(rng.drawn() =~= old(rng).drawn() + record_before(
            pass,
            base,
            residents@,
            draws,
            i as nat,
            0,
        ));
        while j < n
            invariant
                i < n,
                j <= n,
                n == residents@.len(),
                pass != Wiring::Shortcut,
                0 < denominator,
                numerator <= denominator,
                (numerator, denominator) == odds_of(pass),
                base == old(graph).links(),
                graph.people() == old(graph).people(),
                all_known(residents@, graph.people().len()),
                graph.links() == after_pairs_before(
                    pass,
                    base,
                    residents@,
                    draws,
                    i as nat,
                    j as nat,
                ),
                rng.drawn() == old(rng).drawn() + record_before(
                    pass,
                    base,
                    residents@,
                    draws,
                    i as nat,
                    j as nat,
                ),
                drew_with(old(rng).drawn(), rng.drawn(), odds_of(pass)),
                missed_since(rng.drawn(), old(rng).drawn().len()) ==> graph.links() == base,
            decreases n - j,
        {
            let a = residents[i];
            let b = residents[j];
            let ghost reached = graph.links();
            if considers(graph, a, b, pass) {
                let ghost record = rng.drawn();
                let drawn = rng.chance(numerator, denominator);
                proof {
                    let longer = rng.drawn();
                    assert(longer[longer.len() - 1] == Draw::Chance(numerator, denominator, drawn));
                    if missed_since(longer, old(rng).drawn().len()) {
                        assert(missed(longer[longer.len() - 1]));
                        assert forall|k: int|
                            old(rng).drawn().len() <= k < record.len() implies missed(
                            #[trigger] record[k],
                        ) by {
                            assert(record[k] == longer[k]);
                        }
                    }
                    let earlier = draws;
                    draws = |x: int, y: int| if x == i && y == j { drawn } else { earlier(x, y) };
                    lemma_rows_frame(pass, base, residents@, earlier, draws, i as nat);
                    lemma_row_frame(
                        pass,
                        after_rows(pass, base, residents@, draws, i as nat),
                        residents@,
                        earlier,
                        draws,
                        i as int,
                        j as nat,
                    );
                    lemma_rows_record_frame(pass, base, residents@, earlier, draws, i as nat);
                    lemma_row_record_frame(
                        pass,
                        after_rows(pass, base, residents@, draws, i as nat),
                        residents@,
                        earlier,
                        draws,
                        i as int,
                        j as nat,
                    );
                    assert(pair_record(pass, reached, a, b, draws(i as int, j as int)) =~= seq![
                        Draw::Chance(numerator, denominator, drawn),
                    ]);
                    assert(longer =~= old(rng).drawn() + record_before(
                        pass,
                        base,
                        residents@,
                        draws,
                        i as nat,
                        (j + 1) as nat,
                    ));
                }
                match place_link(graph, a.node, b.node, pass, drawn) {
                    Ok(_) => {},
                    Err(e) => {
                        proof {
                            lemma_within_pairs(pass, base, residents@, draws, i as nat, j as nat);
                            assert(stalled_on_record(
                                pass,
                                base,
                                graph.links(),
                                residents@,
                                draws,
                                i as nat,
                                j as nat,
                                old(rng).drawn(),
                                rng.drawn(),
                            ));
                        }
                        return Err(e);
                    },
                }
            } else {
                assert(rng.drawn() =~= old(rng).drawn() + record_before(
                    pass,
                    base,
                    residents@,
                    draws,
                    i as nat,
                    (j + 1) as nat,
                ));
            }
            j += 1;
        }
        i += 1;
    }
    assert(ran_in_full(
        pass,
        base,
        graph.links(),
        residents@,
        draws,
        old(rng).drawn(),
        rng.drawn(),
    ));
    Ok(())
}

/// Before the pair `(i, j)` the links have grown by less than one per
/// ordered pair.
proof fn lemma_within_pairs(
    pass: Wiring,
    links: Seq<Link>,
    residents: Seq<Resident>,
    draws: spec_fn(int, int) -> bool,
    i: nat,
    j: nat,
)
    requires
        i < residents.len(),
        j < residents.len(),
    ensures
        after_pairs_before(pass, links, residents, draws, i, j).len() < links.len()
            + residents.len() * residents.len(),
{
    lemma_after_rows(pass, links, residents, draws, i);
    lemma_after_row(pass, after_rows(pass, links, residents, draws, i), residents, draws, i as int, j);
    let n = residents.len();
    assert(i * n + j < n * n) by (nonlinear_arith)
        requires
            i < n,
            j < n,
    ;
}

/// Links ordered pairs of residents at random, one pair in a hundred, with
/// local links. A pair that is linked in both orders has two links.
pub fn wire_local(graph: &mut ContactGraph, rng: &mut RandomSource, residents: &Vec<Resident>) -> (outcome:
    Result<(), BuildError>)
    ensures
        final(graph).people() == old(graph).people(),
        wired(
            Wiring::Local,
            old(graph).people().len(),
            old(graph).links(),
            final(graph).links(),
            residents@,
            outcome,
        ),
        extended_by(old(graph).links(), final(graph).links(), LOCAL_HOURS),
        wired_on_record(
            Wiring::Local,
            old(graph).people().len(),
            old(graph).links(),
            final(graph).links(),
            residents@,
            outcome,
            old(rng).drawn(),
            final(rng).drawn(),
        ),
        drew_with(old(rng).drawn(), final(rng).drawn(), odds_of(Wiring::Local)),
        all_known(residents@, old(graph).people().len()) && missed_since(
            final(rng).drawn(),
            old(rng).drawn().len(),
        ) ==> outcome is Ok && final(graph).links() == old(graph).links(),
{
    let outcome = wire_at_random(graph, rng, residents, Wiring::Local);
    proof {
        lemma_wired_grows(
            Wiring::Local,
            old(graph).people().len(),
            old(graph).links(),
            graph.links(),
            residents@,
            outcome,
        );
    }
    outcome
}

/// Closes open triangles at random, one in ten: two residents who are not
/// linked and have a neighbour in common get a local link. The graph is
/// read as it stands when the pair is reached, links of this pass included.
pub fn close_cliques(
    graph: &mut ContactGraph,
    rng: &mut RandomSource,
    residents: &Vec<Resident>,
) -> (outcome: Result<(), BuildError>)
    ensures
        final(graph).people() == old(graph).people(),
        wired(
            Wiring::Closure,
            old(graph).people().len(),
            old(graph).links(),
            final(graph).links(),
            residents@,
            outcome,
        ),
        extended_by(old(graph).links(), final(graph).links(), LOCAL_HOURS),
        wired_on_record(
            Wiring::Closure,
            old(graph).people().len(),
            old(graph).links(),
            final(graph).links(),
            residents@,
            outcome,
            old(rng).drawn(),
            final(rng).drawn(),
        ),
        drew_with(old(rng).drawn(), final(rng).drawn(), odds_of(Wiring::Closure)),
        all_known(residents@, old(graph).people().len()) && missed_since(
            final(rng).drawn(),
            old(rng).drawn().len(),
        ) ==> outcome is Ok && final(graph).links() == old(graph).links(),
{
    let outcome = wire_at_random(graph, rng, residents, Wiring::Closure);
    proof {
        lemma_wired_grows(
            Wiring::Closure,
            old(graph).people().len(),
            old(graph).links(),
            graph.links(),
            residents@,
            outcome,
        );
    }
    outcome
}

/// Whatever a pass ends in, a random rule has only appended local links and
/// the shortcut rule has only written shortcut weights.
pub proof fn lemma_wired_grows(
    pass: Wiring,
    nodes: nat,
    before: Seq<Link>,
    after: Seq<Link>,
    residents: Seq<Resident>,
    outcome: Result<(), BuildError>,
)
    requires
        wired(pass, nodes, before, after, residents, outcome),
    ensures
        pass != Wiring::Shortcut ==> extended_by(before, after, LOCAL_HOURS),
        pass == Wiring::Shortcut ==> rewritten_to(before, after, SHORTCUT_HOURS),
{
    if all_known(residents, nodes) {
        match outcome {
            Ok(_) => {
                let draws = choose|draws: spec_fn(int, int) -> bool|
                    after == #[trigger] after_pass(pass, before, residents, draws);
                lemma_after_rows(pass, before, residents, draws, residents.len());
            },
            Err(e) => {
                let (draws, i, j) = choose|draws: spec_fn(int, int) -> bool, i: nat, j: nat|
                    i < residents.len() && j < residents.len() && after
                        == #[trigger] after_pairs_before(pass, before, residents, draws, i, j);
                lemma_after_rows(pass, before, residents, draws, i);
                lemma_after_row(
                    pass,
                    after_rows(pass, before, residents, draws, i),
                    residents,
                    draws,
                    i as int,
                    j,
                );
            },
        }
    }
}

/// Sets a shortcut link between every two residents who are both online:
/// a link that already joins them takes the shortcut weight, and only where
/// none does is one appended. Running the pass again changes nothing.
pub fn wire_shortcuts(graph: &mut ContactGraph, residents: &Vec<Resident>) -> (outcome: Result<
    (),
    BuildError,
>)
    ensures
        final(graph).people() == old(graph).people(),
        wired(
            Wiring::Shortcut,
            old(graph).people().len(),
            old(graph).links(),
            final(graph).links(),
            residents@,
            outcome,
        ),
        outcome is Ok ==> final(graph).links() == shortcut_links(old(graph).links(), residents@),
        rewritten_to(old(graph).links(), final(graph).links(), SHORTCUT_HOURS),
        all_known(residents@, old(graph).people().len()) && all_offline(residents@) ==> outcome
            is Ok && final(graph).links() == old(graph).links(),
        outcome is Err && outcome->Err_0 == BuildError::EdgeLimit ==> exists|i: nat, j: nat| #[trigger]
            stall_at(
                Wiring::Shortcut,
                old(graph).links(),
                final(graph).links(),
                residents@,
                no_draws(),
                i,
                j,
            ),
{
    if !knows_all(graph, residents) {
        return Err(BuildError::UnknownNode);
    }
    let n = residents.len();
    let ghost base = graph.links();
    let mut i: usize = 0;
    while i < n
        invariant
            i <= n,
            n == residents@.len(),
            base == old(graph).links(),
            graph.people() == old(graph).people(),
            all_known(residents@, graph.people().len()),
            graph.links() == after_rows(Wiring::Shortcut, base, residents@, no_draws(), i as nat),
            all_offline(residents@) ==> graph.links() == base,
        decreases n - i,
    {
        let mut j: usize = 0;
        while j < n
            invariant
                i < n,
                j <= n,
                n == residents@.len(),
                base == old(graph).links(),
                graph.people() == old(graph).people(),
                all_known(residents@, graph.people().len()),
                graph.links() == after_pairs_before(
                    Wiring::Shortcut,
                    base,
                    residents@,
                    no_draws(),
                    i as nat,
                    j as nat,
                ),
                all_offline(residents@) ==> graph.links() == base,
            decreases n - j,
        {
            let a = residents[i];
            let b = residents[j];
            if considers(graph, a, b, Wiring::Shortcut) {
                match place_link(graph, a.node, b.node, Wiring::Shortcut, true) {
                    Ok(_) => {},
                    Err(e) => {
                        proof {
                            assert(stall_at(
                                Wiring::Shortcut,
                                base,
                                graph.links(),
                                residents@,
                                no_draws(),
                                i as nat,
                                j as nat,
                            ));
                            lemma_within_pairs(
                                Wiring::Shortcut,
                                base,
                                residents@,
                                no_draws(),
                                i as nat,
                                j as nat,
                            );
                            lemma_wired_grows(
                                Wiring::Shortcut,
                                old(graph).people().len(),
                                base,
                                graph.links(),
                                residents@,
                                Err(BuildError::EdgeLimit),
                            );
                        }
                        return Err(BuildError::EdgeLimit);
                    },
                }
            }
            j += 1;
        }
        i += 1;
    }
    proof {
        assert(graph.links() == after_pass(Wiring::Shortcut, base, residents@, no_draws()));
        lemma_wired_grows(
            Wiring::Shortcut,
            old(graph).people().len(),
            base,
            graph.links(),
            residents@,
            Ok(()),
        );
    }
    Ok(())
}

/// Whether `residents` are `count` newcomers to a graph that held `before`:
/// the graph now holds `after`, the old people followed by the newcomers,
/// and each newcomer names the node that carries them.
pub open spec fn settled(
    before: Seq<Person>,
    after: Seq<Person>,
    residents: Seq<Resident>,
    count: nat,
) -> bool {
    &&& residents.len() == count
    &&& after.len() == before.len() + count
    &&& forall|k: int| 0 <= k < before.len() ==> #[trigger] after[k] == before[k]
    &&& forall|k: int|
        0 <= k < count ==> (#[trigger] residents[k]).node == before.len() + k && after[before.len()
            + k] == residents[k].person
}

/// The draws that make the first `upto` residents, person after person.
pub open spec fn settle_draws(residents: Seq<Resident>, upto: nat) -> Seq<Draw>
    decreases upto,
{
    if upto == 0 {
        Seq::empty()
    } else {
        settle_draws(residents, (upto - 1) as nat) + person_draws(residents[upto - 1].person)
    }
}

/// Whether no resident is online.
pub open spec fn all_offline(residents: Seq<Resident>) -> bool {
    forall|k: int| 0 <= k < residents.len() ==> !(#[trigger] residents[k]).person.has_net_now
}

proof fn lemma_settle_draws_frame(one: Seq<Resident>, other: Seq<Resident>, upto: nat)
    requires
        upto <= one.len() <= other.len(),
        forall|k: int| 0 <= k < upto ==> #[trigger] one[k] == other[k],
    ensures
        settle_draws(one, upto) == settle_draws(other, upto),
    decreases upto,
{
    if upto > 0 {
        lemma_settle_draws_frame(one, other, (upto - 1) as nat);
        assert(one[upto - 1] == other[upto - 1]);
    }
}

/// The record of the draws that make residents holds, for each of them,
/// the draw that decided whether they are online: where all those draws
/// came out false, nobody is online.
pub proof fn lemma_settled_offline(log: Seq<Draw>, residents: Seq<Resident>, upto: nat)
    requires
        upto <= residents.len(),
        missed_since(log + settle_draws(residents, upto), log.len()),
    ensures
        forall|k: int| 0 <= k < upto ==> !(#[trigger] residents[k]).person.has_net_now,
        settle_draws(residents, upto).len() == 5 * upto,
    decreases upto,
{
    if upto > 0 {
        let head = settle_draws(residents, (upto - 1) as nat);
        let last = person_draws(residents[upto - 1].person);
        let all = log + settle_draws(residents, upto);
        lemma_settle_len(residents, (upto - 1) as nat);
        assert forall|k: int| log.len() <= k < (log + head).len() implies missed(
            #[trigger] (log + head)[k],
        ) by {
            assert((log + head)[k] == all[k]);
        }
        lemma_settled_offline(log, residents, (upto - 1) as nat);
        let at = (log.len() + head.len() + 4) as int;
        assert(all[at] == last[4]);
        assert(missed(all[at]));
    }
}

proof fn lemma_settle_len(residents: Seq<Resident>, upto: nat)
    ensures
        settle_draws(residents, upto).len() == 5 * upto,
    decreases upto,
{
    if upto > 0 {
        lemma_settle_len(residents, (upto - 1) as nat);
    }
}

/// Generates `count` people and inserts each as a node, in order. Either
/// all of them are inserted or, where the graph cannot hold them, none.
pub fn settle(graph: &mut ContactGraph, rng: &mut RandomSource, count: usize) -> (outcome: Result<
    Vec<Resident>,
    BuildError,
>)
    ensures
        final(graph).links() == old(graph).links(),
        old(graph).people().len() + count > CAPACITY ==> outcome is Err && outcome->Err_0
            == BuildError::NodeLimit && final(graph).people() == old(graph).people(),
        old(graph).people().len() + count <= CAPACITY ==> outcome is Ok && settled(
            old(graph).people(),
            final(graph).people(),
            outcome->Ok_0@,
            count as nat,
        ),
        outcome is Ok ==> final(rng).drawn() == old(rng).drawn() + settle_draws(
            outcome->Ok_0@,
            count as nat,
        ),
        outcome is Err ==> final(rng).drawn() == old(rng).drawn(),
{
    let held = graph.node_count();
    if held > CAPACITY as usize || count > CAPACITY as usize - held {
        return Err(BuildError::NodeLimit);
    }
    let mut residents: Vec<Resident> = Vec::new();
    let mut k: usize = 0;
    assert(rng.drawn() =~= old(rng).drawn() + settle_draws(residents@, 0));
    while k < count
        invariant
            k <= count,
            held == old(graph).people().len(),
            held + count <= CAPACITY,
            graph.links() == old(graph).links(),
            settled(old(graph).people(), graph.people(), residents@, k as nat),
            rng.drawn() == old(rng).drawn() + settle_draws(residents@, k as nat),
        decreases count - k,
    {
        let ghost before = residents@;
        let person = Person::new(rng);
        proof {
            lemma_settle_draws_frame(before, before.push(Resident { person, node: 0 }), k as nat);
        }
        match graph.add_node(person) {
            Some(node) => {
                residents.push(Resident { person, node });
                proof {
                    lemma_settle_draws_frame(before, residents@, k as nat);
                    assert(rng.drawn() =~= old(rng).drawn() + settle_draws(
                        residents@,
                        (k + 1) as nat,
                    ));
                }
            },
            None => {
                return Err(BuildError::NodeLimit);
            },
        }
        k += 1;
    }
    Ok(residents)
}

/// The links of a city once the three rules have run over its residents in
/// turn: at random, closing triangles, and shortcuts.
pub open spec fn city_links(
    links: Seq<Link>,
    residents: Seq<Resident>,
    local_draws: spec_fn(int, int) -> bool,
    closure_draws: spec_fn(int, int) -> bool,
) -> Seq<Link> {
    shortcut_links(
        after_pass(
            Wiring::Closure,
            after_pass(Wiring::Local, links, residents, local_draws),
            residents,
            closure_draws,
        ),
        residents,
    )
}

/// The links that the rule `pass` starts from in a city whose wiring
/// started from `links`.
pub open spec fn pass_start(
    pass: Wiring,
    links: Seq<Link>,
    residents: Seq<Resident>,
    local_draws: spec_fn(int, int) -> bool,
    closure_draws: spec_fn(int, int) -> bool,
) -> Seq<Link> {
    match pass {
        Wiring::Local => links,
        Wiring::Closure => after_pass(Wiring::Local, links, residents, local_draws),
        Wiring::Shortcut => after_pass(
            Wiring::Closure,
            after_pass(Wiring::Local, links, residents, local_draws),
            residents,
            closure_draws,
        ),
    }
}

/// The draws of the rule `pass` among the draws of a city.
pub open spec fn pass_draws(
    pass: Wiring,
    local_draws: spec_fn(int, int) -> bool,
    closure_draws: spec_fn(int, int) -> bool,
) -> spec_fn(int, int) -> bool {
    match pass {
        Wiring::Local => local_draws,
        Wiring::Closure => closure_draws,
        Wiring::Shortcut => no_draws(),
    }
}

/// The record of draws after a city has been settled and wired in full:
/// behind the record `log` the draws that make the residents, then the
/// draws of the local rule, then those of the closure rule.
pub open spec fn record_after_city(
    log: Seq<Draw>,
    links: Seq<Link>,
    residents: Seq<Resident>,
    local_draws: spec_fn(int, int) -> bool,
    closure_draws: spec_fn(int, int) -> bool,
) -> Seq<Draw> {
    log + settle_draws(residents, residents.len()) + rows_record(
        Wiring::Local,
        links,
        residents,
        local_draws,
        residents.len(),
    ) + rows_record(
        Wiring::Closure,
        after_pass(Wiring::Local, links, residents, local_draws),
        residents,
        closure_draws,
        residents.len(),
    )
}

/// The record of draws when the wiring of a city stalls at the pair
/// `(i, j)` of the rule `pass`: the draws that make the residents, those
/// of the rules that ran in full, and those of the stalled rule up to the
/// pair, its own included.
pub open spec fn record_at_stall(
    log: Seq<Draw>,
    pass: Wiring,
    links: Seq<Link>,
    residents: Seq<Resident>,
    local_draws: spec_fn(int, int) -> bool,
    closure_draws: spec_fn(int, int) -> bool,
    i: nat,
    j: nat,
) -> Seq<Draw> {
    match pass {
        Wiring::Local => log + settle_draws(residents, residents.len()) + record_before(
            Wiring::Local,
            links,
            residents,
            local_draws,
            i,
            j + 1,
        ),
        Wiring::Closure => log + settle_draws(residents, residents.len()) + rows_record(
            Wiring::Local,
            links,
            residents,
            local_draws,
            residents.len(),
        ) + record_before(
            Wiring::Closure,
            after_pass(Wiring::Local, links, residents, local_draws),
            residents,
            closure_draws,
            i,
            j + 1,
        ),
        Wiring::Shortcut => record_after_city(log, links, residents, local_draws, closure_draws),
    }
}

/// Whether a city was wired in full under the given draws: links and
/// record follow them.
pub open spec fn city_ran(
    links0: Seq<Link>,
    links1: Seq<Link>,
    residents: Seq<Resident>,
    local_draws: spec_fn(int, int) -> bool,
    closure_draws: spec_fn(int, int) -> bool,
    log0: Seq<Draw>,
    log1: Seq<Draw>,
) -> bool {
    &&& links1 == city_links(links0, residents, local_draws, closure_draws)
    &&& log1 == record_after_city(log0, links0, residents, local_draws, closure_draws)
}

/// Whether the wiring of a city stalled at the pair `(i, j)` of the rule
/// `pass` under the given draws: links and record follow them.
pub open spec fn city_stalled_at(
    pass: Wiring,
    links0: Seq<Link>,
    links1: Seq<Link>,
    residents: Seq<Resident>,
    local_draws: spec_fn(int, int) -> bool,
    closure_draws: spec_fn(int, int) -> bool,
    i: nat,
    j: nat,
    log0: Seq<Draw>,
    log1: Seq<Draw>,
) -> bool {
    &&& stall_at(
        pass,
        pass_start(pass, links0, residents, local_draws, closure_draws),
        links1,
        residents,
        pass_draws(pass, local_draws, closure_draws),
        i,
        j,
    )
    &&& log1 == record_at_stall(log0, pass, links0, residents, local_draws, closure_draws, i, j)
}

/// Whether the wiring of a city stalled, with links and record as some
/// draws make them.
pub open spec fn city_stalled_on_record(
    links0: Seq<Link>,
    links1: Seq<Link>,
    residents: Seq<Resident>,
    log0: Seq<Draw>,
    log1: Seq<Draw>,
) -> bool {
    exists|
        pass: Wiring,
        local_draws: spec_fn(int, int) -> bool,
        closure_draws: spec_fn(int, int) -> bool,
        i: nat,
        j: nat,
    | #[trigger]
        city_stalled_at(
            pass,
            links0,
            links1,
            residents,
            local_draws,
            closure_draws,
            i,
            j,
            log0,
            log1,
        )
}

/// The residents, or the error, that an exec result stands for.
pub open spec fn seen_city(outcome: Result<Vec<Resident>, BuildError>) -> Result<
    Seq<Resident>,
    BuildError,
> {
    match outcome {
        Ok(residents) => Ok(residents@),
        Err(e) => Err(e),
    }
}

/// Whether settling and wiring `count` newcomers can have turned a graph
/// with the people `people0` and the links `links0` into one with
/// `people1` and `links1`, and the record of draws `log0` into `log1`,
/// ending in `outcome`. Where the graph cannot hold the newcomers nothing
/// is done and nothing drawn. Otherwise they are settled, and the wiring
/// either runs in full or stalls on a full graph; the links and the record
/// follow the same draws.
pub open spec fn populated(
    people0: Seq<Person>,
    links0: Seq<Link>,
    people1: Seq<Person>,
    links1: Seq<Link>,
    count: nat,
    outcome: Result<Seq<Resident>, BuildError>,
    log0: Seq<Draw>,
    log1: Seq<Draw>,
) -> bool {
    if people0.len() + count > CAPACITY {
        outcome == Err::<Seq<Resident>, BuildError>(BuildError::NodeLimit) && people1 == people0
            && links1 == links0 && log1 == log0
    } else {
        match outcome {
            Ok(residents) => settled(people0, people1, residents, count) && exists|
                local_draws: spec_fn(int, int) -> bool,
                closure_draws: spec_fn(int, int) -> bool,
            | #[trigger]
                city_ran(links0, links1, residents, local_draws, closure_draws, log0, log1),
            Err(e) => e == BuildError::EdgeLimit && exists|residents: Seq<Resident>| #[trigger]
                settled(people0, people1, residents, count) && city_stalled_on_record(
                    links0,
                    links1,
                    residents,
                    log0,
                    log1,
                ),
        }
    }
}

/// Settles `count` new residents and wires them among themselves by the
/// three rules in turn. The links that the graph held keep their endpoints;
/// a weight changes only to the shortcut weight. Where every draw with odds
/// comes out false, nobody is online and no pair is linked.
pub fn populate_city(graph: &mut ContactGraph, rng: &mut RandomSource, count: usize) -> (outcome:
    Result<Vec<Resident>, BuildError>)
    ensures
        populated(
            old(graph).people(),
            old(graph).links(),
            final(graph).people(),
            final(graph).links(),
            count as nat,
            seen_city(outcome),
            old(rng).drawn(),
            final(rng).drawn(),
        ),
        mixed_from(old(graph).links(), final(graph).links()),
        outcome is Ok ==> final(graph).links().len() <= old(graph).links().len() + 3 * count
            * count,
        old(graph).links().len() + 3 * count * count <= CAPACITY ==> !(outcome is Err
            && outcome->Err_0 == BuildError::EdgeLimit),
        grown_from(old(rng).drawn(), final(rng).drawn()),
        old(graph).people().len() + count <= CAPACITY && missed_since(
            final(rng).drawn(),
            old(rng).drawn().len(),
        ) ==> outcome is Ok && final(graph).links() == old(graph).links(),
{
    let ghost links0 = graph.links();
    let ghost log0 = rng.drawn();
    let residents = match settle(graph, rng, count) {
        Ok(residents) => residents,
        Err(e) => {
            return Err(e);
        },
    };
    let ghost log1 = rng.drawn();
    assert(all_known(residents@, graph.people().len()));
    assert(count * count + count * count + count * count == 3 * count * count) by (nonlinear_arith);
    match wire_local(graph, rng, &residents) {
        Ok(_) => {},
        Err(e) => {
            proof {
                let (draws, i, j) = choose|draws: spec_fn(int, int) -> bool, i: nat, j: nat| #[trigger]
                    stalled_on_record(
                        Wiring::Local,
                        links0,
                        graph.links(),
                        residents@,
                        draws,
                        i,
                        j,
                        log1,
                        rng.drawn(),
                    );
                assert(city_stalled_at(
                    Wiring::Local,
                    links0,
                    graph.links(),
                    residents@,
                    draws,
                    no_draws(),
                    i,
                    j,
                    log0,
                    rng.drawn(),
                ));
                lemma_grown_twice(log0, log1, rng.drawn());
            }
            return Err(e);
        },
    }
    let ghost links1 = graph.links();
    let ghost log2 = rng.drawn();
    let ghost local_draws = choose|draws: spec_fn(int, int) -> bool| #[trigger]
        ran_in_full(Wiring::Local, links0, links1, residents@, draws, log1, log2);
    proof {
        lemma_after_rows(Wiring::Local, links0, residents@, local_draws, count as nat);
        lemma_grown_twice(log0, log1, log2);
    }
    match close_cliques(graph, rng, &residents) {
        Ok(_) => {},
        Err(e) => {
            proof {
                let (draws, i, j) = choose|draws: spec_fn(int, int) -> bool, i: nat, j: nat| #[trigger]
                    stalled_on_record(
                        Wiring::Closure,
                        links1,
                        graph.links(),
                        residents@,
                        draws,
                        i,
                        j,
                        log2,
                        rng.drawn(),
                    );
                assert(city_stalled_at(
                    Wiring::Closure,
                    links0,
                    graph.links(),
                    residents@,
                    local_draws,
                    draws,
                    i,
                    j,
                    log0,
                    rng.drawn(),
                ));
                lemma_grown_twice(log0, log2, rng.drawn());
                if missed_since(rng.drawn(), log0.len()) {
                    lemma_missed_earlier(log2, rng.drawn(), log0.len());
                }
            }
            return Err(e);
        },
    }
    let ghost links2 = graph.links();
    let ghost log3 = rng.drawn();
    let ghost closure_draws = choose|draws: spec_fn(int, int) -> bool| #[trigger]
        ran_in_full(Wiring::Closure, links1, links2, residents@, draws, log2, log3);
    proof {
        lemma_after_rows(Wiring::Closure, links1, residents@, closure_draws, count as nat);
        lemma_grown_twice(log0, log2, log3);
        lemma_grown_twice(log1, log2, log3);
        if missed_since(log3, log0.len()) {
            lemma_missed_earlier(log2, log3, log0.len());
            lemma_missed_earlier(log1, log3, log0.len());
            lemma_settled_offline(log0, residents@, count as nat);
        }
    }
    match wire_shortcuts(graph, &residents) {
        Ok(_) => {},
        Err(e) => {
            proof {
                let (i, j) = choose|i: nat, j: nat| #[trigger]
                    stall_at(Wiring::Shortcut, links2, graph.links(), residents@, no_draws(), i, j);
                assert(city_stalled_at(
                    Wiring::Shortcut,
                    links0,
                    graph.links(),
                    residents@,
                    local_draws,
                    closure_draws,
                    i,
                    j,
                    log0,
                    rng.drawn(),
                ));
            }
            return Err(e);
        },
    }
    proof {
        assert(city_ran(
            links0,
            graph.links(),
            residents@,
            local_draws,
            closure_draws,
            log0,
            rng.drawn(),
        ));
        lemma_after_rows(Wiring::Shortcut, links2, residents@, no_draws(), count as nat);
        assert(settled(old(graph).people(), graph.people(), residents@, count as nat));
        assert(populated(
            old(graph).people(),
            links0,
            graph.people(),
            graph.links(),
            count as nat,
            Ok(residents@),
            log0,
            rng.drawn(),
        ));
        if missed_since(log3, log0.len()) {
            assert(graph.links() == links0);
        }
    }
    Ok(residents)
}

/// Whether `later` keeps the endpoints of every link of `earlier` in place,
/// changes a weight only to the shortcut weight, and follows them only with
/// local and shortcut links.
pub open spec fn mixed_from(earlier: Seq<Link>, later: Seq<Link>) -> bool {
    &&& earlier.len() <= later.len()
    &&& forall|k: int|
        0 <= k < earlier.len() ==> (#[trigger] later[k]).0 == earlier[k].0 && later[k].1
            == earlier[k].1 && (later[k].2 == earlier[k].2 || later[k].2 == SHORTCUT_HOURS)
    &&& forall|k: int|
        earlier.len() <= k < later.len() ==> (#[trigger] later[k]).2 == LOCAL_HOURS || later[k].2
            == SHORTCUT_HOURS
}

} // verus!
