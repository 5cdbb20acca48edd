//! The contact graph: an undirected multigraph of people whose edges carry a
//! transit delay in hours.

use vstd::prelude::*;
use petgraph::graph::Graph;
use petgraph::graph::NodeIndex;
use petgraph::Undirected;
use petgraph::visit::EdgeRef;
use crate::entity::Person;

verus! {

/// The handle that a node receives at insertion. Handles count up from zero
/// and stay valid for the life of the graph.
pub type NodeHandle = u32;

/// One edge as `(first endpoint, second endpoint, hours)`, in the order in
/// which the endpoints were given at insertion.
pub type Link = (u32, u32, u64);

/// What a relaying node sees of one of its edges: `(other endpoint, hours)`.
pub type Hop = (u32, u64);

#[verifier::external_type_specification]
#[verifier::external_body]
#[verifier::reject_recursive_types(N)]
#[verifier::reject_recursive_types(E)]
#[verifier::reject_recursive_types(Ty)]
#[verifier::reject_recursive_types(Ix)]
pub struct ExGraph<N, E, Ty, Ix>(Graph<N, E, Ty, Ix>);

#[verifier::external_type_specification]
#[verifier::external_body]
pub struct ExUndirected(Undirected);

/// The node payloads of a graph, by handle.
pub uninterp spec fn graph_payloads(g: Graph<Person, u64, Undirected, u32>) -> Seq<Person>;

/// The edges of a graph, in insertion order.
pub uninterp spec fn graph_links(g: Graph<Person, u64, Undirected, u32>) -> Seq<(u32, u32, u64)>;

/// Position of the newest link that was inserted from `a` to `b`, if any.
pub open spec fn newest_from_to(links: Seq<Link>, a: u32, b: u32) -> Option<int>
    decreases links.len(),
{
    if links.len() == 0 {
        None
    } else if links.last().0 == a && links.last().1 == b {
        Some(links.len() - 1)
    } else {
        newest_from_to(links.drop_last(), a, b)
    }
}

/// Position of the link that a lookup between `a` and `b` settles on: the
/// newest one inserted from `a` to `b`, failing that the newest one inserted
/// from `b` to `a`.
pub open spec fn found_link(links: Seq<Link>, a: u32, b: u32) -> Option<int> {
    match newest_from_to(links, a, b) {
        Some(i) => Some(i),
        None => newest_from_to(links, b, a),
    }
}

/// The links after an insert-or-overwrite between `a` and `b`: the link that
/// the lookup finds takes the new weight, or a new link is appended.
pub open spec fn overwritten(links: Seq<Link>, a: u32, b: u32, hours: u64) -> Seq<Link> {
    match found_link(links, a, b) {
        Some(i) => links.update(i, (links[i].0, links[i].1, hours)),
        None => links.push((a, b, hours)),
    }
}

/// The hops along links inserted with `a` as first endpoint, newest first.
pub open spec fn hops_out(links: Seq<Link>, a: u32) -> Seq<Hop>
    decreases links.len(),
{
    if links.len() == 0 {
        Seq::empty()
    } else if links.last().0 == a {
        seq![(links.last().1, links.last().2)] + hops_out(links.drop_last(), a)
    } else {
        hops_out(links.drop_last(), a)
    }
}

/// The hops along links inserted with `a` as second endpoint, newest first,
/// self-loops left out (they already count among the outgoing hops).
pub open spec fn hops_in(links: Seq<Link>, a: u32) -> Seq<Hop>
    decreases links.len(),
{
    if links.len() == 0 {
        Seq::empty()
    } else if links.last().1 == a && links.last().0 != a {
        seq![(links.last().0, links.last().2)] + hops_in(links.drop_last(), a)
    } else {
        hops_in(links.drop_last(), a)
    }
}

/// Every hop available at `a`, in the order in which the graph lists them.
pub open spec fn hops_at(links: Seq<Link>, a: u32) -> Seq<Hop> {
    hops_out(links, a) + hops_in(links, a)
}

/// The far endpoints of the hops at `a`, one per incident link.
pub open spec fn neighbors_at(links: Seq<Link>, a: u32) -> Seq<u32> {
    Seq::new(hops_at(links, a).len(), |k: int| hops_at(links, a)[k].0)
}

/// `Graph::default`: a graph without nodes or edges.
#[verifier::external_body]
fn pg_empty() -> (g: Graph<Person, u64, Undirected, u32>)
    ensures
        graph_payloads(g) == Seq::<Person>::empty(),
        graph_links(g) == Seq::<(u32, u32, u64)>::empty(),
{
    Graph::default()
}

/// `Graph::node_count`: the number of nodes.
#[verifier::external_body]
fn pg_node_count(g: &Graph<Person, u64, Undirected, u32>) -> (count: usize)
    ensures
        count == graph_payloads(*g).len(),
{
    g.node_count()
}

/// `Graph::edge_count`: the number of edges.
#[verifier::external_body]
fn pg_edge_count(g: &Graph<Person, u64, Undirected, u32>) -> (count: usize)
    ensures
        count == graph_links(*g).len(),
{
    g.edge_count()
}

/// `Graph::add_node`: appends a node and returns its handle, the former node
/// count. The call panics once the count has reached the largest 32-bit
/// value, which the precondition excludes. Edges are untouched.
#[verifier::external_body]
fn pg_add_node(g: &mut Graph<Person, u64, Undirected, u32>, person: Person) -> (handle: u32)
    requires
        graph_payloads(*old(g)).len() < u32::MAX,
    ensures
        graph_payloads(*final(g)) == graph_payloads(*old(g)).push(person),
        graph_links(*final(g)) == graph_links(*old(g)),
        handle == graph_payloads(*old(g)).len(),
{
    g.add_node(person).index() as u32
}

/// `Graph::add_edge`: appends an edge, parallel edges included. The call
/// panics on a handle that names no node and once the edge count has reached
/// the largest 32-bit value; the precondition excludes both. Nodes are
/// untouched.
#[verifier::external_body]
fn pg_add_edge(g: &mut Graph<Person, u64, Undirected, u32>, a: u32, b: u32, hours: u64)
    requires
        a < graph_payloads(*old(g)).len(),
        b < graph_payloads(*old(g)).len(),
        graph_links(*old(g)).len() < u32::MAX,
    ensures
        graph_payloads(*final(g)) == graph_payloads(*old(g)),
        graph_links(*final(g)) == graph_links(*old(g)).push((a, b, hours)),
{
    g.add_edge(NodeIndex::new(a as usize), NodeIndex::new(b as usize), hours);
}

/// `Graph::update_edge`: looks an edge between the two nodes up, first among
/// those inserted from `a`, then among those inserted towards `a`, newest
/// first in each; overwrites the weight of the one found, or else appends as
/// `add_edge` does, with the same panics.
#[verifier::external_body]
fn pg_update_edge(g: &mut Graph<Person, u64, Undirected, u32>, a: u32, b: u32, hours: u64)
    requires
        a < graph_payloads(*old(g)).len(),
        b < graph_payloads(*old(g)).len(),
        found_link(graph_links(*old(g)), a, b) is Some || graph_links(*old(g)).len() < u32::MAX,
    ensures
        graph_payloads(*final(g)) == graph_payloads(*old(g)),
        graph_links(*final(g)) == overwritten(graph_links(*old(g)), a, b, hours),
{
    g.update_edge(NodeIndex::new(a as usize), NodeIndex::new(b as usize), hours);
}

/// `Graph::neighbors`: for an undirected graph the other endpoint of every
/// edge at `a`, a self-loop once; empty for a handle that names no node.
#[verifier::external_body]
fn pg_neighbors(g: &Graph<Person, u64, Undirected, u32>, a: u32) -> (near: Vec<u32>)
    ensures
        near@ == neighbors_at(graph_links(*g), a),
{
    g.neighbors(NodeIndex::new(a as usize)).map(|n| n.index() as u32).collect()
}

/// `Graph::edges`: for an undirected graph every edge at `a` with `a` as its
/// source, a self-loop once; empty for a handle that names no node.
#[verifier::external_body]
fn pg_hops(g: &Graph<Person, u64, Undirected, u32>, a: u32) -> (hops: Vec<(u32, u64)>)
    ensures
        hops@ == hops_at(graph_links(*g), a),
{
    g.edges(NodeIndex::new(a as usize)).map(|e| (e.target().index() as u32, *e.weight())).collect()
}

/// `Graph::node_weight`: the payload of a node, `None` for a handle that
/// names no node.
#[verifier::external_body]
fn pg_payload(g: &Graph<Person, u64, Undirected, u32>, a: u32) -> (person: Option<Person>)
    ensures
        a < graph_payloads(*g).len() ==> person == Some(graph_payloads(*g)[a as int]),
        a >= graph_payloads(*g).len() ==> person is None,
{
    g.node_weight(NodeIndex::new(a as usize)).copied()
}

/// `Graph::raw_edges`: the edge table, in insertion order.
#[verifier::external_body]
fn pg_links(g: &Graph<Person, u64, Undirected, u32>) -> (links: Vec<(u32, u32, u64)>)
    ensures
        links@ == graph_links(*g),
{
    g.raw_edges().iter().map(|e| (e.source().index() as u32, e.target().index() as u32, e.weight)).collect()
}

/// Why an edge could not be placed.
#[derive(Clone, Copy, Debug, PartialEq, Eq, Structural)]
pub enum GraphError {
    /// An endpoint names no node of the graph.
    UnknownNode,
    /// The graph already holds as many edges as its handles can count.
    EdgeLimit,
}

/// The largest number of nodes, and of edges, that a graph can hold.
pub const CAPACITY: u32 = u32::MAX;

/// An undirected multigraph whose nodes carry people and whose edges carry
/// hours of transit delay. Parallel edges are kept, never merged.
pub struct ContactGraph {
    inner: Graph<Person, u64, Undirected, u32>,
}

impl ContactGraph {
    /// The people of the graph, by handle.
    pub closed spec fn people(&self) -> Seq<Person> {
        graph_payloads(self.inner)
    }

    /// The edges of the graph, in insertion order.
    pub closed spec fn links(&self) -> Seq<Link> {
        graph_links(self.inner)
    }

    /// Whether `a` names a node of this graph.
    pub open spec fn has_node(&self, a: NodeHandle) -> bool {
        a < self.people().len()
    }

    /// A graph without nodes or edges.
    pub fn new() -> (graph: ContactGraph)
        ensures
            graph.people() == Seq::<Person>::empty(),
            graph.links() == Seq::<Link>::empty(),
    {
        ContactGraph { inner: pg_empty() }
    }

    /// The number of nodes.
    pub fn node_count(&self) -> (count: usize)
        ensures
            count == self.people().len(),
    {
        pg_node_count(&self.inner)
    }

    /// The number of edges, parallel ones counted separately.
    pub fn edge_count(&self) -> (count: usize)
        ensures
            count == self.links().len(),
    {
        pg_edge_count(&self.inner)
    }

    /// Inserts a person and returns the new handle, or `None`, leaving the
    /// graph as it was, once the graph is full.
    pub fn add_node(&mut self, person: Person) -> (handle: Option<NodeHandle>)
        ensures
            final(self).links() == old(self).links(),
            old(self).people().len() < CAPACITY ==> handle == Some(old(self).people().len() as u32),
            old(self).people().len() < CAPACITY ==> final(self).people() == old(self).people().push(
                person,
            ),
            old(self).people().len() >= CAPACITY ==> handle is None,
            old(self).people().len() >= CAPACITY ==> final(self).people() == old(self).people(),
    {
        if pg_node_count(&self.inner) < CAPACITY as usize {
            Some(pg_add_node(&mut self.inner, person))
        } else {
            None
        }
    }

    /// Appends an edge between two nodes of the graph, beside any edge that
    /// already joins them.
    pub fn add_edge(&mut self, a: NodeHandle, b: NodeHandle, hours: u64) -> (placed: Result<
        (),
        GraphError,
    >)
        ensures
            final(self).people() == old(self).people(),
            placed == edge_verdict(old(self).people().len(), old(self).links().len(), a, b, false),
            placed is Ok ==> final(self).links() == old(self).links().push((a, b, hours)),
            placed is Err ==> final(self).links() == old(self).links(),
    {
        let nodes = pg_node_count(&self.inner);
        if a as usize >= nodes || b as usize >= nodes {
            Err(GraphError::UnknownNode)
        } else if pg_edge_count(&self.inner) >= CAPACITY as usize {
            Err(GraphError::EdgeLimit)
        } else {
            pg_add_edge(&mut self.inner, a, b, hours);
            Ok(())
        }
    }

    /// Sets the weight of an edge between two nodes of the graph: the edge
    /// that a lookup finds is overwritten, and only where none joins them is
    /// one appended.
    pub fn update_edge(&mut self, a: NodeHandle, b: NodeHandle, hours: u64) -> (placed: Result<
        (),
        GraphError,
    >)
        ensures
            final(self).people() == old(self).people(),
            placed == edge_verdict(
                old(self).people().len(),
                old(self).links().len(),
                a,
                b,
                found_link(old(self).links(), a, b) is Some,
            ),
            placed is Ok ==> final(self).links() == overwritten(old(self).links(), a, b, hours),
            placed is Err ==> final(self).links() == old(self).links(),
    {
        let nodes = pg_node_count(&self.inner);
        if a as usize >= nodes || b as usize >= nodes {
            return Err(GraphError::UnknownNode);
        }
        if pg_edge_count(&self.inner) >= CAPACITY as usize {
            let near = pg_neighbors(&self.inner, a);
            proof {
                lemma_neighbors_cover(self.links(), a, b);
            }
            if !holds(&near, b) {
                return Err(GraphError::EdgeLimit);
            }
        }
        pg_update_edge(&mut self.inner, a, b, hours);
        Ok(())
    }

    /// The far endpoint of every edge at `a`, one entry per edge.
    pub fn neighbors(&self, a: NodeHandle) -> (near: Vec<NodeHandle>)
        ensures
            near@ == neighbors_at(self.links(), a),
    {
        pg_neighbors(&self.inner, a)
    }

    /// Every edge at `a` as a hop: the far endpoint and the hours.
    pub fn hops(&self, a: NodeHandle) -> (hops: Vec<Hop>)
        ensures
            hops@ == hops_at(self.links(), a),
    {
        pg_hops(&self.inner, a)
    }

    /// The person at `a`, if `a` names a node.
    pub fn person(&self, a: NodeHandle) -> (person: Option<Person>)
        ensures
            self.has_node(a) ==> person == Some(self.people()[a as int]),
            !self.has_node(a) ==> person is None,
    {
        pg_payload(&self.inner, a)
    }

    /// All edges, in insertion order.
    pub fn link_list(&self) -> (links: Vec<Link>)
        ensures
            links@ == self.links(),
    {
        pg_links(&self.inner)
    }
}

/// Whether an edge between `a` and `b` can be placed in a graph with `nodes`
/// nodes and `links` edges, where `reuses` says that an existing edge takes
/// the weight.
pub open spec fn edge_verdict(nodes: nat, links: nat, a: u32, b: u32, reuses: bool) -> Result<
    (),
    GraphError,
> {
    if a >= nodes || b >= nodes {
        Err(GraphError::UnknownNode)
    } else if !reuses && links >= CAPACITY {
        Err(GraphError::EdgeLimit)
    } else {
        Ok(())
    }
}

/// Whether `x` occurs in `items`.
pub fn holds(items: &Vec<u32>, x: u32) -> (found: bool)
    ensures
        found == items@.contains(x),
{
    let mut k: usize = 0;
    while k < items.len()
        invariant
            k <= items.len(),
            forall|j: int| 0 <= j < k ==> items@[j] != x,
        decreases items.len() - k,
    {
        if items[k] == x {
            return true;
        }
        k += 1;
    }
    false
}

/// Whether some link joins `a` and `b`, in either insertion order.
pub open spec fn adjacent(links: Seq<Link>, a: u32, b: u32) -> bool {
    exists|i: int| 0 <= i < links.len() && joins(#[trigger] links[i], a, b)
}

/// Whether `link` was inserted from `a` to `b`.
pub open spec fn runs(link: Link, a: u32, b: u32) -> bool {
    link.0 == a && link.1 == b
}

/// Whether `link` has `a` and `b` as its two endpoints.
pub open spec fn joins(link: Link, a: u32, b: u32) -> bool {
    runs(link, a, b) || runs(link, b, a)
}

/// Whether `link` ends at `a`, on either side.
pub open spec fn touches(link: Link, a: u32) -> bool {
    link.0 == a || link.1 == a
}

/// The hop that `link` offers to a message held at its endpoint `a`.
pub open spec fn hop_of(link: Link, a: u32) -> Hop {
    (if link.0 == a { link.1 } else { link.0 }, link.2)
}

/// Whether some link at `a` offers the hop `h`.
pub open spec fn offers(links: Seq<Link>, a: u32, h: Hop) -> bool {
    exists|i: int| 0 <= i < links.len() && touches(#[trigger] links[i], a) && hop_of(links[i], a) == h
}

/// Whether no link ends at `a`.
pub open spec fn isolated(links: Seq<Link>, a: u32) -> bool {
    forall|i: int| 0 <= i < links.len() ==> !touches(#[trigger] links[i], a)
}

proof fn lemma_prepend_contains<T>(x: T, rest: Seq<T>, h: T)
    ensures
        (seq![x] + rest).contains(h) <==> (x == h || rest.contains(h)),
{
    let s = seq![x] + rest;
    if x == h {
        assert(s[0] == h);
    }
    if rest.contains(h) {
        let j = choose|j: int| 0 <= j < rest.len() && rest[j] == h;
        assert(s[j + 1] == h);
    }
    if s.contains(h) {
        let j = choose|j: int| 0 <= j < s.len() && s[j] == h;
        if j > 0 {
            assert(rest[j - 1] == h);
        }
    }
}

proof fn lemma_concat_contains<T>(front: Seq<T>, back: Seq<T>, h: T)
    ensures
        (front + back).contains(h) <==> (front.contains(h) || back.contains(h)),
{
    let s = front + back;
    if front.contains(h) {
        let j = choose|j: int| 0 <= j < front.len() && front[j] == h;
        assert(s[j] == h);
    }
    if back.contains(h) {
        let j = choose|j: int| 0 <= j < back.len() && back[j] == h;
        assert(s[front.len() + j] == h);
    }
    if s.contains(h) {
        let j = choose|j: int| 0 <= j < s.len() && s[j] == h;
        if j < front.len() {
            assert(front[j] == h);
        } else {
            assert(back[j - front.len()] == h);
        }
    }
}

/// What the lookup of the newest link from `a` to `b` returns: the last
/// position that holds such a link, or `None` where no position does.
pub proof fn lemma_newest_from_to(links: Seq<Link>, a: u32, b: u32)
    ensures
        match newest_from_to(links, a, b) {
            Some(i) => 0 <= i < links.len() && runs(links[i], a, b) && forall|j: int|
                i < j < links.len() ==> !runs(#[trigger] links[j], a, b),
            None => forall|j: int| 0 <= j < links.len() ==> !runs(#[trigger] links[j], a, b),
        },
    decreases links.len(),
{
    if links.len() > 0 && !runs(links.last(), a, b) {
        let init = links.drop_last();
        lemma_newest_from_to(init, a, b);
        assert(forall|j: int| 0 <= j < init.len() ==> init[j] == links[j]);
    }
}

/// A lookup between `a` and `b` finds a link exactly when the two are
/// adjacent, and the link it finds joins them.
pub proof fn lemma_found_link(links: Seq<Link>, a: u32, b: u32)
    ensures
        found_link(links, a, b) is Some <==> adjacent(links, a, b),
        found_link(links, a, b) is Some ==> 0 <= found_link(links, a, b)->0 < links.len() && joins(
            links[found_link(links, a, b)->0],
            a,
            b,
        ),
{
    lemma_newest_from_to(links, a, b);
    lemma_newest_from_to(links, b, a);
    if adjacent(links, a, b) {
        let i = choose|i: int| 0 <= i < links.len() && joins(#[trigger] links[i], a, b);
        assert(runs(links[i], a, b) || runs(links[i], b, a));
    }
}

proof fn lemma_hops_out_member(links: Seq<Link>, a: u32, h: Hop)
    ensures
        hops_out(links, a).contains(h) <==> exists|i: int|
            0 <= i < links.len() && (#[trigger] links[i]).0 == a && hop_of(links[i], a) == h,
    decreases links.len(),
{
    if links.len() > 0 {
        let init = links.drop_last();
        let last = links.last();
        lemma_hops_out_member(init, a, h);
        assert(forall|j: int| 0 <= j < init.len() ==> init[j] == links[j]);
        if last.0 == a {
            lemma_prepend_contains((last.1, last.2), hops_out(init, a), h);
        }
        if hops_out(links, a).contains(h) {
            if last.0 == a && hop_of(last, a) == h {
                assert(links[links.len() - 1].0 == a);
            } else {
                let i = choose|i: int|
                    0 <= i < init.len() && (#[trigger] init[i]).0 == a && hop_of(init[i], a) == h;
                assert(links[i].0 == a && hop_of(links[i], a) == h);
            }
        }
        if exists|i: int|
            0 <= i < links.len() && (#[trigger] links[i]).0 == a && hop_of(links[i], a) == h {
            let i = choose|i: int|
                0 <= i < links.len() && (#[trigger] links[i]).0 == a && hop_of(links[i], a) == h;
            if i < init.len() {
                assert(init[i].0 == a && hop_of(init[i], a) == h);
            }
        }
    }
}

proof fn lemma_hops_in_member(links: Seq<Link>, a: u32, h: Hop)
    ensures
        hops_in(links, a).contains(h) <==> exists|i: int|
            0 <= i < links.len() && (#[trigger] links[i]).1 == a && links[i].0 != a && hop_of(
                links[i],
                a,
            ) == h,
    decreases links.len(),
{
    if links.len() > 0 {
        let init = links.drop_last();
        let last = links.last();
        lemma_hops_in_member(init, a, h);
        assert(forall|j: int| 0 <= j < init.len() ==> init[j] == links[j]);
        if last.1 == a && last.0 != a {
            lemma_prepend_contains((last.0, last.2), hops_in(init, a), h);
        }
        if hops_in(links, a).contains(h) {
            if last.1 == a && last.0 != a && hop_of(last, a) == h {
                assert(links[links.len() - 1].1 == a);
            } else {
                let i = choose|i: int|
                    0 <= i < init.len() && (#[trigger] init[i]).1 == a && init[i].0 != a && hop_of(
                        init[i],
                        a,
                    ) == h;
                assert(links[i].1 == a && hop_of(links[i], a) == h);
            }
        }
        if exists|i: int|
            0 <= i < links.len() && (#[trigger] links[i]).1 == a && links[i].0 != a && hop_of(
                links[i],
                a,
            ) == h {
            let i = choose|i: int|
                0 <= i < links.len() && (#[trigger] links[i]).1 == a && links[i].0 != a && hop_of(
                    links[i],
                    a,
                ) == h;
            if i < init.len() {
                assert(init[i].1 == a && hop_of(init[i], a) == h);
            }
        }
    }
}

/// The hops at `a` are exactly the hops that the links at `a` offer.
pub proof fn lemma_hops_member(links: Seq<Link>, a: u32, h: Hop)
    ensures
        hops_at(links, a).contains(h) <==> offers(links, a, h),
{
    lemma_hops_out_member(links, a, h);
    lemma_hops_in_member(links, a, h);
    lemma_concat_contains(hops_out(links, a), hops_in(links, a), h);
    if offers(links, a, h) {
        let i = choose|i: int|
            0 <= i < links.len() && touches(#[trigger] links[i], a) && hop_of(links[i], a) == h;
        assert(links[i].0 == a || (links[i].1 == a && links[i].0 != a));
    }
    if hops_out(links, a).contains(h) {
        let i = choose|i: int|
            0 <= i < links.len() && (#[trigger] links[i]).0 == a && hop_of(links[i], a) == h;
        assert(touches(links[i], a));
    }
    if hops_in(links, a).contains(h) {
        let i = choose|i: int|
            0 <= i < links.len() && (#[trigger] links[i]).1 == a && links[i].0 != a && hop_of(
                links[i],
                a,
            ) == h;
        assert(touches(links[i], a));
    }
}

/// A node has no hop to offer exactly when no link ends at it.
pub proof fn lemma_no_hops(links: Seq<Link>, a: u32)
    ensures
        hops_at(links, a).len() == 0 <==> isolated(links, a),
{
    if hops_at(links, a).len() > 0 {
        let h = hops_at(links, a)[0];
        assert(hops_at(links, a).contains(h));
        lemma_hops_member(links, a, h);
    }
    if !isolated(links, a) {
        let i = choose|i: int| 0 <= i < links.len() && touches(#[trigger] links[i], a);
        let h = hop_of(links[i], a);
        lemma_hops_member(links, a, h);
        assert(offers(links, a, h));
    }
}

/// `b` is listed among the neighbours of `a` exactly when a lookup between
/// the two finds a link.
pub proof fn lemma_neighbors_cover(links: Seq<Link>, a: u32, b: u32)
    ensures
        neighbors_at(links, a).contains(b) <==> adjacent(links, a, b),
        neighbors_at(links, a).contains(b) <==> found_link(links, a, b) is Some,
{
    lemma_found_link(links, a, b);
    let near = neighbors_at(links, a);
    let hops = hops_at(links, a);
    if near.contains(b) {
        let k = choose|k: int| 0 <= k < near.len() && near[k] == b;
        let h = hops[k];
        assert(hops.contains(h));
        lemma_hops_member(links, a, h);
        let i = choose|i: int|
            0 <= i < links.len() && touches(#[trigger] links[i], a) && hop_of(links[i], a) == h;
        assert(joins(links[i], a, b));
    }
    if adjacent(links, a, b) {
        let i = choose|i: int| 0 <= i < links.len() && joins(#[trigger] links[i], a, b);
        let h = hop_of(links[i], a);
        assert(touches(links[i], a));
        lemma_hops_member(links, a, h);
        let k = choose|k: int| 0 <= k < hops.len() && hops[k] == h;
        assert(near[k] == b);
    }
}

} // verus!
