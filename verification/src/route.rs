//! The mathematics of a road network: its view as sequences, and what a
//! route through it is.

use crate::graph::{Edge, Node, NodeID};
use vstd::prelude::*;

verus! {

/// What a graph is, apart from how it is stored: its nodes in index order,
/// for each node the edges that leave it, and the index under which each
/// outside identifier is found.
pub struct GraphView {
    pub nodes: Seq<Node>,
    pub adj: Seq<Seq<Edge>>,
    pub index: Map<i64, usize>,
}

/// Whether `index` maps each outside identifier among `nodes`, and no
/// other, to the last position that carries it.
pub open spec fn indexes(index: Map<i64, usize>, nodes: Seq<Node>) -> bool {
    &&& forall|id: i64| #[trigger]
        index.contains_key(id) <==> exists|i: int|
            0 <= i < nodes.len() && (#[trigger] nodes[i]).id.0 == id
    &&& forall|id: i64| #[trigger]
        index.contains_key(id) ==> {
            &&& index[id] < nodes.len()
            &&& nodes[index[id] as int].id.0 == id
            &&& forall|j: int| index[id] < j < nodes.len() ==> (#[trigger] nodes[j]).id.0 != id
        }
}

/// The longest distance a single edge can have.
pub open spec fn max_edge_distance() -> int {
    u32::MAX as int
}

impl GraphView {
    /// The invariant of every graph: one adjacency list per node; each edge
    /// is filed under its source and ends at a node of the graph; the node
    /// count fits an edge's distance type, so that the length of a route
    /// that repeats no node fits 64 bits; and the index maps each outside
    /// identifier to the last node that carries it.
    pub open spec fn wf(self) -> bool {
        &&& self.adj.len() == self.nodes.len()
        &&& self.nodes.len() <= u32::MAX
        &&& forall|u: int, k: int|
            0 <= u < self.adj.len() && 0 <= k < self.adj[u].len() ==> {
                &&& (#[trigger] self.adj[u][k]).from_node.0 == u
                &&& self.adj[u][k].to_node.0 < self.nodes.len()
            }
        &&& indexes(self.index, self.nodes)
    }

    /// Whether `e` is one of the edges of the graph.
    pub open spec fn has_edge(self, e: Edge) -> bool {
        e.from_node.0 < self.adj.len() && self.adj[e.from_node.0 as int].contains(e)
    }

    /// Whether the edges `r`, taken in order, lead from `s` to `t`: each is
    /// an edge of the graph, the first leaves `s`, each next one leaves the
    /// node the one before it reached, and the last reaches `t`. The empty
    /// sequence is the route from a node to itself.
    pub open spec fn is_route(self, s: NodeID, t: NodeID, r: Seq<Edge>) -> bool {
        &&& s.0 < self.nodes.len()
        &&& forall|i: int| 0 <= i < r.len() ==> self.has_edge(#[trigger] r[i])
        &&& forall|i: int| 0 <= i < r.len() - 1 ==> (#[trigger] r[i]).to_node == r[i + 1].from_node
        &&& if r.len() == 0 {
            s == t
        } else {
            r[0].from_node == s && r[r.len() - 1].to_node == t
        }
    }

    /// Whether some route leads from `s` to `t`.
    pub open spec fn connected(self, s: NodeID, t: NodeID) -> bool {
        exists|r: Seq<Edge>| self.is_route(s, t, r)
    }

    /// Whether `r` is a route from `s` to `t` and no route from `s` to `t`
    /// is shorter.
    pub open spec fn is_shortest(self, s: NodeID, t: NodeID, r: Seq<Edge>) -> bool {
        &&& self.is_route(s, t, r)
        &&& forall|other: Seq<Edge>| #[trigger]
            self.is_route(s, t, other) ==> route_length(r) <= route_length(other)
    }
}

/// The sum of the distances of the edges of `r`.
pub open spec fn route_length(r: Seq<Edge>) -> nat
    decreases r.len(),
{
    if r.len() == 0 {
        0
    } else {
        route_length(r.drop_last()) + r.last().distance as nat
    }
}

/// The nodes that a route from `s` along `r` visits: `s`, then the node
/// each edge reaches.
pub open spec fn route_nodes(s: NodeID, r: Seq<Edge>) -> Seq<NodeID> {
    Seq::new(
        r.len() + 1,
        |i: int|
            if i == 0 {
                s
            } else {
                r[i - 1].to_node
            },
    )
}

/// A route that reaches the source of an edge of the graph goes on along
/// that edge.
pub proof fn lemma_route_extend(g: GraphView, s: NodeID, r: Seq<Edge>, e: Edge)
    requires
        g.is_route(s, e.from_node, r),
        g.has_edge(e),
    ensures
        g.is_route(s, e.to_node, r.push(e)),
        route_length(r.push(e)) == route_length(r) + e.distance,
        route_nodes(s, r.push(e)) == route_nodes(s, r).push(e.to_node),
{
    let r2 = r.push(e);
    assert(r2.drop_last() == r);
    assert forall|i: int| 0 <= i < r2.len() implies g.has_edge(#[trigger] r2[i]) by {
        if i < r.len() {
            assert(r2[i] == r[i]);
        }
    }
    assert forall|i: int| 0 <= i < r2.len() - 1 implies (#[trigger] r2[i]).to_node == r2[i
        + 1].from_node by {
        assert(r2[i] == r[i]);
        if i + 1 < r.len() {
            assert(r2[i + 1] == r[i + 1]);
        }
    }
    assert(route_nodes(s, r2) =~= route_nodes(s, r).push(e.to_node));
}

/// A route of at least one edge is a route to the source of its last edge,
/// followed by that edge.
pub proof fn lemma_route_shorten(g: GraphView, s: NodeID, t: NodeID, r: Seq<Edge>)
    requires
        g.is_route(s, t, r),
        r.len() > 0,
    ensures
        g.is_route(s, r.last().from_node, r.drop_last()),
        g.has_edge(r.last()),
        r.last().to_node == t,
        route_length(r) == route_length(r.drop_last()) + r.last().distance,
{
    let r1 = r.drop_last();
    assert forall|i: int| 0 <= i < r1.len() implies g.has_edge(#[trigger] r1[i]) by {
        assert(r1[i] == r[i]);
    }
    assert forall|i: int| 0 <= i < r1.len() - 1 implies (#[trigger] r1[i]).to_node == r1[i
        + 1].from_node by {
        assert(r1[i] == r[i]);
        assert(r1[i + 1] == r[i + 1]);
    }
    if r1.len() > 0 {
        assert(r1[0] == r[0]);
        assert(r1[r1.len() - 1] == r[r.len() - 2]);
        assert(r[r.len() - 2].to_node == r[r.len() - 2 + 1].from_node);
    }
}

/// Both ends of a route are nodes of the graph.
pub proof fn lemma_route_ends(g: GraphView, s: NodeID, t: NodeID, r: Seq<Edge>)
    requires
        g.wf(),
        g.is_route(s, t, r),
    ensures
        s.0 < g.nodes.len(),
        t.0 < g.nodes.len(),
{
    if r.len() > 0 {
        let e = r[r.len() - 1];
        assert(g.has_edge(e));
        let u = e.from_node.0 as int;
        let k = choose|k: int| 0 <= k < g.adj[u].len() && g.adj[u][k] == e;
        assert(g.adj[u][k].to_node.0 < g.nodes.len());
    }
}

/// A route, read as the nodes it visits: it starts at its source and ends
/// at its target, and each edge of it is an edge of the graph that joins
/// one node visited to the next.
pub proof fn lemma_route_joins_nodes(g: GraphView, s: NodeID, t: NodeID, r: Seq<Edge>)
    requires
        g.is_route(s, t, r),
    ensures
        route_nodes(s, r).len() == r.len() + 1,
        route_nodes(s, r)[0] == s,
        route_nodes(s, r)[r.len() as int] == t,
        forall|i: int|
            0 <= i < r.len() ==> {
                &&& g.has_edge(#[trigger] r[i])
                &&& r[i].from_node == route_nodes(s, r)[i]
                &&& r[i].to_node == route_nodes(s, r)[i + 1]
            },
{
    assert forall|i: int| 0 <= i < r.len() implies {
        &&& g.has_edge(#[trigger] r[i])
        &&& r[i].from_node == route_nodes(s, r)[i]
        &&& r[i].to_node == route_nodes(s, r)[i + 1]
    } by {
        if i > 0 {
            assert(r[i - 1].to_node == r[i - 1 + 1].from_node);
        }
    }
}

/// Two shortest routes between the same two nodes are equally long: the
/// distance of a shortest route depends on the graph and the two nodes
/// alone.
pub proof fn lemma_shortest_lengths_agree(
    g: GraphView,
    s: NodeID,
    t: NodeID,
    a: Seq<Edge>,
    b: Seq<Edge>,
)
    requires
        g.is_shortest(s, t, a),
        g.is_shortest(s, t, b),
    ensures
        route_length(a) == route_length(b),
{
}

/// The shortest route from a node of the graph to itself is the empty
/// one, of length 0.
pub proof fn lemma_shortest_to_itself(g: GraphView, s: NodeID)
    requires
        s.0 < g.nodes.len(),
    ensures
        g.is_shortest(s, s, Seq::empty()),
        route_length(Seq::<Edge>::empty()) == 0,
        route_nodes(s, Seq::empty()) == seq![s],
{
    assert(route_nodes(s, Seq::empty()) =~= seq![s]);
}

/// Every node that a route visits is a node of the graph.
pub proof fn lemma_route_nodes_in_graph(g: GraphView, s: NodeID, t: NodeID, r: Seq<Edge>)
    requires
        g.wf(),
        g.is_route(s, t, r),
    ensures
        forall|i: int|
            0 <= i <= r.len() ==> (#[trigger] route_nodes(s, r)[i]).0 < g.nodes.len(),
{
    assert forall|i: int| 0 <= i <= r.len() implies (#[trigger] route_nodes(s, r)[i]).0
        < g.nodes.len() by {
        if i > 0 {
            let e = r[i - 1];
            assert(g.has_edge(e));
            let u = e.from_node.0 as int;
            let k = choose|k: int| 0 <= k < g.adj[u].len() && g.adj[u][k] == e;
            assert(g.adj[u][k].to_node.0 < g.nodes.len());
        }
    }
}

/// A route is no longer than as many edges of the greatest distance.
pub proof fn lemma_route_length_bound(r: Seq<Edge>)
    ensures
        route_length(r) <= r.len() * max_edge_distance(),
    decreases r.len(),
{
    if r.len() > 0 {
        lemma_route_length_bound(r.drop_last());
        assert(r.len() * max_edge_distance() == (r.len() - 1) * max_edge_distance()
            + max_edge_distance()) by (nonlinear_arith);
    }
}

} // verus!
