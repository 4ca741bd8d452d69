//! The road network as a graph under dense node indices, and the search
//! for a shortest route through it.

use crate::osm;
use crate::queue::MinQueue;
use crate::route::{indexes, route_length, route_nodes, GraphView};
use crate::search::{
    initial, inv, lemma_candidate_fits, lemma_drop_stale, lemma_exhausted,
    lemma_fresh_is_shortest, lemma_initial, lemma_queued_node, lemma_relax_improve,
    lemma_relax_keep, lemma_relaxed_all, lemma_settle, lemma_settled_count_bound, lemma_shape,
    lemma_step_back, relaxed, settled_count, split_at, state, SearchState,
};
use std::collections::HashMap;
use vstd::multiset::Multiset;
use vstd::pervasive::unreached;
use vstd::prelude::*;

verus! {

/// A coordinate, in whole units of 1e-7 degrees. No range is imposed.
#[derive(Copy, Clone, PartialEq, Eq, Structural, Debug)]
pub struct LatLon {
    pub lat: i32,
    pub lon: i32,
}

/// The dense index of a node: its position among the nodes a graph was
/// made from.
#[derive(Hash, Eq, PartialEq, Structural, PartialOrd, Debug, Clone, Copy)]
pub struct NodeID(pub usize);

/// A node: the identifier the map source gave it, and where it lies.
#[derive(Copy, Clone, PartialEq, Eq, Structural, Debug)]
pub struct Node {
    pub id: osm::NodeID,
    pub location: LatLon,
}

/// A directed edge: travel is from `from_node` to `to_node` only.
#[derive(Copy, Clone, PartialEq, Eq, Structural, Debug)]
pub struct Edge {
    pub from_node: NodeID,
    pub to_node: NodeID,
    pub distance: u32,
}

/// The edges of `edges` that leave node `u`, in their order.
pub open spec fn edges_from(edges: Seq<Edge>, u: int) -> Seq<Edge>
    decreases edges.len(),
{
    if edges.len() == 0 {
        Seq::empty()
    } else if edges.last().from_node.0 == u {
        edges_from(edges.drop_last(), u).push(edges.last())
    } else {
        edges_from(edges.drop_last(), u)
    }
}

/// The adjacency lists of a graph of `n` nodes with the edges `edges`.
pub open spec fn group_by_source(n: nat, edges: Seq<Edge>) -> Seq<Seq<Edge>> {
    Seq::new(n, |u: int| edges_from(edges, u))
}

/// An edge leaves `u` in `edges` exactly if it is among the edges filed
/// under `u`.
pub proof fn lemma_edges_from_contains(edges: Seq<Edge>, u: int, e: Edge)
    ensures
        edges_from(edges, u).contains(e) <==> edges.contains(e) && e.from_node.0 == u,
    decreases edges.len(),
{
    if edges.len() > 0 {
        let rest = edges.drop_last();
        let last = edges.last();
        lemma_edges_from_contains(rest, u, e);
        if edges.contains(e) {
            let i = choose|i: int| 0 <= i < edges.len() && edges[i] == e;
            if i < rest.len() {
                assert(rest[i] == e);
            }
        }
        if rest.contains(e) {
            let i = choose|i: int| 0 <= i < rest.len() && rest[i] == e;
            assert(edges[i] == e);
        }
        if last == e {
            assert(edges[edges.len() - 1] == e);
        }
        if last.from_node.0 == u {
            let kept = edges_from(rest, u);
            if kept.push(last).contains(e) {
                let i = choose|i: int| 0 <= i < kept.push(last).len() && kept.push(last)[i] == e;
                if i < kept.len() {
                    assert(kept[i] == e);
                }
            }
            if kept.contains(e) {
                let i = choose|i: int| 0 <= i < kept.len() && kept[i] == e;
                assert(kept.push(last)[i] == e);
            }
            if last == e {
                assert(kept.push(last)[kept.len() as int] == e);
            }
        }
    }
}

/// The number of segments of a way that have both ends and a distance.
pub open spec fn segment_count(way: osm::Way) -> nat {
    if way.nodes@.len() == 0 {
        0
    } else if way.nodes@.len() - 1 <= way.distances@.len() {
        (way.nodes@.len() - 1) as nat
    } else {
        way.distances@.len()
    }
}

/// The two edges that segment `k` of a way yields, one in each direction,
/// or none where `index` lacks the identifier of either end.
pub open spec fn segment_edges(index: Map<i64, usize>, way: osm::Way, k: int) -> Seq<Edge> {
    let a = way.nodes@[k].0;
    let b = way.nodes@[k + 1].0;
    if index.contains_key(a) && index.contains_key(b) {
        seq![
            Edge { from_node: NodeID(index[a]), to_node: NodeID(index[b]), distance: way.distances@[k] },
            Edge { from_node: NodeID(index[b]), to_node: NodeID(index[a]), distance: way.distances@[k] },
        ]
    } else {
        Seq::empty()
    }
}

/// The edges that the first `upto` segments of a way yield.
pub open spec fn way_edges(index: Map<i64, usize>, way: osm::Way, upto: nat) -> Seq<Edge>
    decreases upto,
{
    if upto == 0 {
        Seq::empty()
    } else {
        way_edges(index, way, (upto - 1) as nat) + segment_edges(index, way, upto - 1)
    }
}

/// The edges that the first `upto` of the ways yield, way by way and
/// segment by segment.
pub open spec fn ways_edges(index: Map<i64, usize>, ways: Seq<osm::Way>, upto: nat) -> Seq<Edge>
    decreases upto,
{
    if upto == 0 {
        Seq::empty()
    } else {
        ways_edges(index, ways, (upto - 1) as nat) + way_edges(
            index,
            ways[upto - 1],
            segment_count(ways[upto - 1]),
        )
    }
}

/// An immutable store of nodes and directed edges. Nodes are known by
/// their dense index; the outside identifier of each is kept and can be
/// looked up in both directions.
pub struct Graph {
    adj_edges: Vec<Vec<Edge>>,
    nodes: Vec<Node>,
    node_id_map: HashMap<i64, usize>,
}

impl View for Graph {
    type V = GraphView;

    closed spec fn view(&self) -> GraphView {
        GraphView {
            nodes: self.nodes@,
            adj: Seq::new(self.adj_edges@.len(), |u: int| self.adj_edges@[u]@),
            index: self.node_id_map@,
        }
    }
}

/// As many empty adjacency lists as `n`.
fn empty_lists(n: usize) -> (lists: Vec<Vec<Edge>>)
    ensures
        lists@.len() == n,
        forall|u: int| 0 <= u < n ==> (#[trigger] lists@[u])@ == Seq::<Edge>::empty(),
{
    let mut lists: Vec<Vec<Edge>> = Vec::new();
    while lists.len() < n
        invariant
            lists@.len() <= n,
            forall|u: int| 0 <= u < lists@.len() ==> (#[trigger] lists@[u])@ == Seq::<Edge>::empty(),
        decreases n - lists@.len(),
    {
        lists.push(Vec::new());
    }
    lists
}

/// The index that maps each outside identifier among `nodes` to the last
/// position that carries it.
fn index_nodes(nodes: &Vec<Node>) -> (index: HashMap<i64, usize>)
    ensures
        indexes(index@, nodes@),
{
    let mut index: HashMap<i64, usize> = HashMap::new();
    let mut i: usize = 0;
    while i < nodes.len()
        invariant
            i <= nodes@.len(),
            forall|id: i64| #[trigger]
                index@.contains_key(id) <==> exists|k: int|
                    0 <= k < i && (#[trigger] nodes@[k]).id.0 == id,
            forall|id: i64| #[trigger]
                index@.contains_key(id) ==> {
                    &&& index@[id] < i
                    &&& nodes@[index@[id] as int].id.0 == id
                    &&& forall|j: int| index@[id] < j < i ==> (#[trigger] nodes@[j]).id.0 != id
                },
        decreases nodes@.len() - i,
    {
        broadcast use vstd::std_specs::hash::group_hash_axioms;
        let ghost before = index@;
        let key: i64 = nodes[i].id.0;
        index.insert(key, i);
        proof {
            assert(index@ == before.insert(key, i));
            assert forall|id: i64| #[trigger] index@.contains_key(id) implies exists|k: int|
                0 <= k < i + 1 && (#[trigger] nodes@[k]).id.0 == id by {
                if id == key {
                    assert(nodes@[i as int].id.0 == id);
                } else {
                    assert(before.contains_key(id));
                    let k = choose|k: int| 0 <= k < i && (#[trigger] nodes@[k]).id.0 == id;
                    assert(nodes@[k].id.0 == id);
                }
            }
            assert forall|id: i64|
                (exists|k: int| 0 <= k < i + 1 && (#[trigger] nodes@[k]).id.0 == id) implies #[trigger]
                index@.contains_key(id) by {
                let k = choose|k: int| 0 <= k < i + 1 && (#[trigger] nodes@[k]).id.0 == id;
                if k < i {
                    assert(before.contains_key(id));
                }
            }
        }
        i = i + 1;
    }
    index
}

/// Files each edge under its source.
fn group_edges(n: usize, edges: &Vec<Edge>) -> (adj_edges: Vec<Vec<Edge>>)
    requires
        forall|i: int| 0 <= i < edges@.len() ==> (#[trigger] edges@[i]).from_node.0 < n,
    ensures
        adj_edges@.len() == n,
        forall|u: int| 0 <= u < n ==> (#[trigger] adj_edges@[u])@ == edges_from(edges@, u),
{
    let mut adj_edges = empty_lists(n);
    let mut i: usize = 0;
    while i < edges.len()
        invariant
            i <= edges@.len(),
            adj_edges@.len() == n,
            forall|k: int| 0 <= k < edges@.len() ==> (#[trigger] edges@[k]).from_node.0 < n,
            forall|u: int|
                0 <= u < n ==> (#[trigger] adj_edges@[u])@ == edges_from(edges@.take(i as int), u),
        decreases edges@.len() - i,
    {
        let e: Edge = edges[i];
        let ghost before = adj_edges@;
        adj_edges[e.from_node.0].push(e);
        proof {
            let done = edges@.take(i as int);
            let next = edges@.take(i + 1);
            assert(next.drop_last() == done);
            assert(next.last() == e);
            assert forall|u: int| 0 <= u < n implies (#[trigger] adj_edges@[u])@ == edges_from(
                next,
                u,
            ) by {
                assert(before[u]@ == edges_from(done, u));
            }
        }
        i = i + 1;
    }
    proof {
        assert(edges@.take(edges@.len() as int) == edges@);
    }
    adj_edges
}

impl Graph {
    /// The graph of the given nodes, edges and index of identifiers.
    fn assemble(nodes: Vec<Node>, edges: Vec<Edge>, node_id_map: HashMap<i64, usize>) -> (g: Graph)
        requires
            nodes@.len() <= u32::MAX,
            forall|i: int|
                0 <= i < edges@.len() ==> (#[trigger] edges@[i]).from_node.0 < nodes@.len()
                    && edges@[i].to_node.0 < nodes@.len(),
            indexes(node_id_map@, nodes@),
        ensures
            g@.wf(),
            g@.nodes == nodes@,
            g@.index == node_id_map@,
            g@.adj == group_by_source(nodes@.len(), edges@),
    {
        let n: usize = nodes.len();
        let adj_edges = group_edges(n, &edges);
        let g = Graph { adj_edges, nodes, node_id_map };
        proof {
            assert(g@.adj =~= group_by_source(n as nat, edges@));
            assert forall|u: int, k: int|
                0 <= u < g@.adj.len() && 0 <= k < g@.adj[u].len() implies (#[trigger] g@.adj[u][
                    k
                ]).from_node.0 == u && g@.adj[u][k].to_node.0 < g@.nodes.len() by {
                let e = g@.adj[u][k];
                assert(edges_from(edges@, u).contains(e));
                lemma_edges_from_contains(edges@, u, e);
                let j = choose|j: int| 0 <= j < edges@.len() && edges@[j] == e;
                assert(edges@[j].to_node.0 < n);
            }
        }
        g
    }

    /// Makes the graph of the given nodes and directed edges. Node `i` of
    /// the graph is `nodes[i]`; the edges are grouped by their source and
    /// keep their order within each group.
    ///
    /// An edge names its ends by index, so each end has to be an index
    /// into `nodes`. The number of nodes has to fit 32 bits.
    pub fn new(nodes: Vec<Node>, edges: Vec<Edge>) -> (g: Graph)
        requires
            nodes@.len() <= u32::MAX,
            forall|i: int|
                0 <= i < edges@.len() ==> (#[trigger] edges@[i]).from_node.0 < nodes@.len()
                    && edges@[i].to_node.0 < nodes@.len(),
        ensures
            g@.wf(),
            g@.nodes == nodes@,
            g@.adj == group_by_source(nodes@.len(), edges@),
    {
        let node_id_map = index_nodes(&nodes);
        Graph::assemble(nodes, edges, node_id_map)
    }

    /// Makes the graph of the given nodes and ways. Node `i` of the graph
    /// is `nodes[i]`. Each segment of a way, between two consecutive nodes
    /// of it, yields an edge in each direction with the segment's
    /// distance; a segment is left out where the identifier of either end
    /// belongs to none of the nodes, or where the way gives it no
    /// distance.
    ///
    /// The number of nodes has to fit 32 bits.
    pub fn build(nodes: Vec<Node>, ways: Vec<osm::Way>) -> (g: Graph)
        requires
            nodes@.len() <= u32::MAX,
        ensures
            g@.wf(),
            g@.nodes == nodes@,
            g@.adj == group_by_source(nodes@.len(), ways_edges(g@.index, ways@, ways@.len())),
    {
        broadcast use vstd::std_specs::hash::group_hash_axioms;
        let node_id_map = index_nodes(&nodes);
        let ghost index = node_id_map@;
        let mut edges: Vec<Edge> = Vec::new();
        let mut w: usize = 0;
        while w < ways.len()
            invariant
                w <= ways@.len(),
                index == node_id_map@,
                indexes(index, nodes@),
                edges@ == ways_edges(index, ways@, w as nat),
                forall|i: int|
                    0 <= i < edges@.len() ==> (#[trigger] edges@[i]).from_node.0 < nodes@.len()
                        && edges@[i].to_node.0 < nodes@.len(),
            decreases ways@.len() - w,
        {
            let way = &ways[w];
            let ghost before = edges@;
            let segments: usize = if way.nodes.len() == 0 {
                0
            } else if way.nodes.len() - 1 <= way.distances.len() {
                way.nodes.len() - 1
            } else {
                way.distances.len()
            };
            let mut k: usize = 0;
            while k < segments
                invariant
                    k <= segments,
                    segments == segment_count(*way),
                    index == node_id_map@,
                    indexes(index, nodes@),
                    edges@ == before + way_edges(index, *way, k as nat),
                    forall|i: int|
                        0 <= i < edges@.len() ==> (#[trigger] edges@[i]).from_node.0 < nodes@.len()
                            && edges@[i].to_node.0 < nodes@.len(),
                decreases segments - k,
            {
                let a: i64 = way.nodes[k].0;
                let b: i64 = way.nodes[k + 1].0;
                let distance: u32 = way.distances[k];
                let ghost so_far = edges@;
                match (node_id_map.get(&a), node_id_map.get(&b)) {
                    (Some(from), Some(to)) => {
                        edges.push(Edge { from_node: NodeID(*from), to_node: NodeID(*to), distance });
                        edges.push(Edge { from_node: NodeID(*to), to_node: NodeID(*from), distance });
                    },
                    _ => {},
                }
                proof {
                    assert(edges@ =~= so_far + segment_edges(index, *way, k as int));
                    assert(edges@ =~= before + way_edges(index, *way, (k + 1) as nat));
                }
                k = k + 1;
            }
            w = w + 1;
        }
        Graph::assemble(nodes, edges, node_id_map)
    }

    /// The index of every node, in ascending order.
    pub fn for_each_node(&self) -> (ids: Vec<NodeID>)
        ensures
            ids@ == Seq::new(self@.nodes.len(), |i: int| NodeID(i as usize)),
    {
        let n: usize = self.nodes.len();
        let mut ids: Vec<NodeID> = Vec::new();
        let mut i: usize = 0;
        while i < n
            invariant
                i <= n,
                n == self@.nodes.len(),
                ids@ == Seq::new(i as nat, |k: int| NodeID(k as usize)),
            decreases n - i,
        {
            ids.push(NodeID(i));
            assert(ids@ =~= Seq::new((i + 1) as nat, |k: int| NodeID(k as usize)));
            i = i + 1;
        }
        ids
    }

    /// The edges that leave a node, or `None` for an index that is not a
    /// node of the graph. A node without edges has the empty list.
    pub fn adjacent_edges(&self, node_id: NodeID) -> (edges: Option<&Vec<Edge>>)
        requires
            self@.wf(),
        ensures
            node_id.0 < self@.nodes.len() ==> edges is Some && edges.unwrap()@
                == self@.adj[node_id.0 as int],
            node_id.0 >= self@.nodes.len() ==> edges is None,
    {
        if node_id.0 < self.adj_edges.len() {
            Some(&self.adj_edges[node_id.0])
        } else {
            None
        }
    }

    /// Where a node lies. The index has to be one of the graph's.
    pub fn get_latlon(&self, node_id: NodeID) -> (location: Option<LatLon>)
        requires
            node_id.0 < self@.nodes.len(),
        ensures
            location == Some(self@.nodes[node_id.0 as int].location),
    {
        Some(self.nodes[node_id.0].location)
    }

    /// The number of nodes.
    pub fn get_total_nodes(&self) -> (n: usize)
        ensures
            n == self@.nodes.len(),
    {
        self.nodes.len()
    }

    /// The index of the node that carries an outside identifier, or `None`
    /// when no node does. Of several nodes with one identifier the last
    /// is found.
    pub fn index_of(&self, id: osm::NodeID) -> (found: Option<NodeID>)
        requires
            self@.wf(),
        ensures
            match found {
                Some(i) => self@.index.contains_key(id.0) && i.0 == self@.index[id.0],
                None => !self@.index.contains_key(id.0),
            },
    {
        broadcast use vstd::std_specs::hash::group_hash_axioms;
        match self.node_id_map.get(&id.0) {
            Some(i) => Some(NodeID(*i)),
            None => None,
        }
    }
}

/// The search found no route: the target cannot be reached from the source.
#[derive(Debug)]
pub struct NoRouteFound;

/// A vector of `n` copies of `value`.
fn filled<T: Copy>(n: usize, value: T) -> (v: Vec<T>)
    ensures
        v@ == Seq::new(n as nat, |i: int| value),
{
    let mut v: Vec<T> = Vec::new();
    while v.len() < n
        invariant
            v@.len() <= n,
            forall|i: int| 0 <= i < v@.len() ==> v@[i] == value,
        decreases n - v@.len(),
    {
        v.push(value);
    }
    assert(v@ =~= Seq::new(n as nat, |i: int| value));
    v
}

/// The same nodes in the opposite order.
fn reversed(v: &Vec<NodeID>) -> (r: Vec<NodeID>)
    ensures
        r@.len() == v@.len(),
        forall|i: int| 0 <= i < v@.len() ==> r@[i] == v@[v@.len() - 1 - i],
{
    let mut r: Vec<NodeID> = Vec::new();
    let mut i: usize = v.len();
    while i > 0
        invariant
            i <= v@.len(),
            r@.len() == v@.len() - i,
            forall|k: int| 0 <= k < r@.len() ==> r@[k] == v@[v@.len() - 1 - k],
        decreases i,
    {
        i = i - 1;
        r.push(v[i]);
    }
    r
}

/// The nodes from `s` to `t` along the recorded predecessors, found by
/// walking back from `t`. A node other than `s` without a predecessor
/// cannot occur on the way.
fn trace_back(
    prev: &Vec<Option<NodeID>>,
    s: NodeID,
    t: NodeID,
    Ghost(g): Ghost<GraphView>,
    Ghost(st): Ghost<SearchState>,
) -> (path: Vec<NodeID>)
    requires
        inv(g, s, st),
        prev@ == st.prev,
        t.0 < g.nodes.len(),
        st.dist[t.0 as int] is Some,
    ensures
        path@ == route_nodes(s, st.wit[t.0 as int]),
{
    let ghost full = st.wit[t.0 as int];
    let ghost len = full.len() as int;
    let ghost mut steps: int = 0;
    let mut back: Vec<NodeID> = Vec::new();
    let mut current = t;
    proof {
        lemma_shape(g, s, st);
        assert(full.take(len) == full);
    }
    while current.0 != s.0
        invariant
            inv(g, s, st),
            prev@ == st.prev,
            full == st.wit[t.0 as int],
            len == full.len(),
            0 <= steps <= len,
            current.0 < g.nodes.len(),
            st.dist[current.0 as int] is Some,
            st.wit[current.0 as int] == full.take(len - steps),
            back@.len() == steps,
            forall|i: int| 0 <= i < steps ==> back@[i] == route_nodes(s, full)[len - i],
        decreases len - steps,
    {
        let ghost here = st.wit[current.0 as int];
        proof {
            lemma_shape(g, s, st);
            lemma_step_back(g, s, st, current.0 as int);
            assert(here[here.len() - 1] == full[len - steps - 1]);
            assert(here.drop_last() == full.take(len - steps - 1));
        }
        back.push(current);
        match prev[current.0] {
            Some(before) => {
                current = before;
            },
            None => {
                // every node on the way but `s` has a predecessor
                unreached::<()>();
            },
        }
        proof {
            steps = steps + 1;
        }
    }
    back.push(s);
    let path = reversed(&back);
    proof {
        lemma_shape(g, s, st);
        assert(current == s);
        assert(steps == len);
        assert(path@ =~= route_nodes(s, full));
    }
    path
}

/// Finds a shortest route from `s` to `t`.
///
/// On success the result is the total distance and the nodes visited,
/// from `s` to `t`: the nodes are those along some route from `s` to `t`
/// in the graph, the distance is the length of that route, and no route
/// from `s` to `t` is shorter. Which of several shortest routes is taken
/// is not fixed. The search fails exactly when no route leads from `s` to
/// `t`. From a node to itself the route is the node alone, of distance 0.
///
/// The source has to be a node of the graph.
pub fn shortest_path(g: &Graph, s: NodeID, t: NodeID) -> (r: Result<
    (u64, Vec<NodeID>),
    NoRouteFound,
>)
    requires
        g@.wf(),
        s.0 < g@.nodes.len(),
    ensures
        match r {
            Ok((distance, path)) => exists|route: Seq<Edge>| #[trigger]
                g@.is_shortest(s, t, route) && route_length(route) == distance && route_nodes(
                    s,
                    route,
                ) == path@,
            Err(_) => !g@.connected(s, t),
        },
        r is Ok <==> g@.connected(s, t),
        s == t ==> r is Ok && r.unwrap().0 == 0 && r.unwrap().1@ == seq![s],
{
    let n: usize = g.get_total_nodes();
    let mut dist: Vec<Option<u64>> = filled(n, None);
    let mut prev: Vec<Option<NodeID>> = filled(n, None);
    let mut done: Vec<bool> = filled(n, false);
    let mut pq = MinQueue::new();
    dist[s.0] = Some(0);
    pq.push(0, s.0);
    let ghost mut wit: Seq<Seq<Edge>> = Seq::new(n as nat, |v: int| Seq::<Edge>::empty());
    proof {
        lemma_initial(g@, s);
        let st = initial(n as nat, s);
        assert(dist@ =~= st.dist);
        assert(prev@ =~= st.prev);
        assert(done@ =~= st.done);
        assert(wit =~= st.wit);
    }
    loop
        invariant
            g@.wf(),
            n == g@.nodes.len(),
            s.0 < n,
            dist@.len() == n,
            prev@.len() == n,
            done@.len() == n,
            inv(g@, s, state(dist@, prev@, done@, wit, pq@)),
            relaxed(g@, state(dist@, prev@, done@, wit, pq@), -1, 0),
            t.0 < n ==> !done@[t.0 as int],
            !done@[s.0 as int] ==> pq@ == Multiset::<(u64, usize)>::empty().insert((0u64, s.0)),
        decreases n - settled_count(done@), pq@.len(),
    {
        let ghost st = state(dist@, prev@, done@, wit, pq@);
        proof {
            lemma_shape(g@, s, st);
            lemma_settled_count_bound(done@);
            broadcast use vstd::multiset::group_multiset_axioms;
        }
        let (d, u) = match pq.pop() {
            Some(top) => top,
            None => {
                proof {
                    lemma_exhausted(g@, s, st, t);
                    if s == t {
                        assert(pq@.count((0u64, s.0)) > 0);
                    }
                }
                return Err(NoRouteFound);
            },
        };
        proof {
            lemma_queued_node(g@, s, st, (d, u));
        }
        if done[u] {
            proof {
                lemma_drop_stale(g@, s, st, (d, u));
            }
            continue ;
        }
        proof {
            lemma_fresh_is_shortest(g@, s, st, (d, u));
            if !done@[s.0 as int] {
                assert((d, u) == (0u64, s.0));
            }
        }
        if u == t.0 {
            let path = trace_back(&prev, s, t, Ghost(g@), Ghost(st));
            proof {
                assert(NodeID(u) == t);
                assert(g@.is_shortest(s, t, wit[u as int]));
                if s == t {
                    assert(route_nodes(s, wit[u as int]) =~= seq![s]);
                }
            }
            return Ok((d, path));
        }
        done[u] = true;
        proof {
            lemma_settle(g@, s, st, (d, u));
        }
        match g.adjacent_edges(NodeID(u)) {
            Some(edges) => {
                let mut k: usize = 0;
                while k < edges.len()
                    invariant
                        g@.wf(),
                        n == g@.nodes.len(),
                        s.0 < n,
                        dist@.len() == n,
                        prev@.len() == n,
                        done@.len() == n,
                        u < n,
                        k <= edges@.len(),
                        edges@ == g@.adj[u as int],
                        done@[u as int],
                        done@[s.0 as int],
                        dist@[u as int] == Some(d),
                        t.0 < n ==> !done@[t.0 as int],
                        inv(g@, s, state(dist@, prev@, done@, wit, pq@)),
                        relaxed(g@, state(dist@, prev@, done@, wit, pq@), u as int, k as int),
                        split_at(g@, state(dist@, prev@, done@, wit, pq@), d as int),
                        wit[u as int].len() < settled_count(done@),
                        settled_count(done@) == settled_count(st.done) + 1,
                    decreases edges@.len() - k,
                {
                    let ghost now = state(dist@, prev@, done@, wit, pq@);
                    let edge: Edge = edges[k];
                    let v: usize = edge.to_node.0;
                    proof {
                        lemma_shape(g@, s, now);
                        lemma_candidate_fits(g@, s, now, u as int, edge);
                        assert(g@.adj[u as int][k as int] == edge);
                        assert(v < n);
                    }
                    let through_u: u64 = d + edge.distance as u64;
                    let shorter: bool = match dist[v] {
                        Some(known) => through_u < known,
                        None => true,
                    };
                    if shorter {
                        proof {
                            lemma_relax_improve(g@, s, now, u as int, k as int);
                            wit = wit.update(v as int, wit[u as int].push(edge));
                        }
                        dist[v] = Some(through_u);
                        prev[v] = Some(NodeID(u));
                        pq.push(through_u, v);
                    } else {
                        proof {
                            lemma_relax_keep(g@, now, u as int, k as int);
                        }
                    }
                    k = k + 1;
                }
            },
            None => {},
        }
        proof {
            let end = state(dist@, prev@, done@, wit, pq@);
            lemma_relaxed_all(g@, end, u as int);
        }
    }
}

} // verus!
