//! The routing engine: a graph and a spatial index over the same nodes,
//! and the query that takes two coordinates to a shortest route.

use crate::graph::{group_by_source, shortest_path, ways_edges, Edge, Graph, LatLon, Node, NodeID};
use crate::osm;
use crate::parser::{parse_map, used_nodes, ParseError};
use crate::route::{lemma_route_nodes_in_graph, route_length, route_nodes, GraphView};
use crate::spatialindex::{coordinate_distance_2, nearest_node, SpatialIndex};
use vstd::prelude::*;

verus! {

/// A graph with the index that resolves coordinates to its nodes. Once
/// built it is only read.
pub struct Engine {
    spatial_index: SpatialIndex,
    graph: Graph,
}

/// A route found: its total distance, the coordinates along it and the
/// nodes along it, both from origin to destination.
pub struct RouteResult {
    pub total_distance: u64,
    pub route_path: Vec<LatLon>,
    pub nodes: Vec<NodeID>,
}

/// Why a query found no route.
#[derive(Debug, Clone, Copy, PartialEq, Eq, Structural)]
pub enum EngineErrors {
    /// The engine has no node to resolve a coordinate to.
    CantFindNearestNode,
    /// No route leads from the origin's node to the destination's.
    CantFindRoute,
    /// A node of the route has no coordinate.
    CantFindLatLon,
}

impl EngineErrors {
    /// The error in words.
    pub fn to_string(&self) -> (text: String)
        ensures
            text@ == match self {
                EngineErrors::CantFindNearestNode => "engine error: CantFindNearestNode"@,
                EngineErrors::CantFindRoute => "engine error: CantFindRoute"@,
                EngineErrors::CantFindLatLon => "engine error: CantFindLatLon"@,
            },
    {
        match self {
            EngineErrors::CantFindNearestNode => "engine error: CantFindNearestNode".to_owned(),
            EngineErrors::CantFindRoute => "engine error: CantFindRoute".to_owned(),
            EngineErrors::CantFindLatLon => "engine error: CantFindLatLon".to_owned(),
        }
    }
}

/// The locations of the nodes, in node order.
pub open spec fn locations(nodes: Seq<Node>) -> Seq<LatLon> {
    nodes.map_values(|n: Node| n.location)
}

/// The node that a coordinate resolves to: none in a graph without nodes,
/// else the node that the spatial index over the graph's nodes finds
/// nearest. It depends on the nodes and the coordinate alone.
pub open spec fn resolved(g: GraphView, query: LatLon) -> Option<NodeID> {
    if g.nodes.len() == 0 {
        None
    } else {
        Some(NodeID(nearest_node(locations(g.nodes), query) as usize))
    }
}

/// Whether no node of the graph lies nearer to `query` than node `id`.
pub open spec fn none_nearer_than(g: GraphView, query: LatLon, id: NodeID) -> bool {
    &&& id.0 < g.nodes.len()
    &&& forall|j: int|
        0 <= j < g.nodes.len() ==> coordinate_distance_2(g.nodes[id.0 as int].location, query)
            <= coordinate_distance_2((#[trigger] g.nodes[j]).location, query)
}

impl View for Engine {
    type V = GraphView;

    closed spec fn view(&self) -> GraphView {
        self.graph@
    }
}

impl Engine {
    /// The invariant of every engine: the graph is well formed, and the
    /// index holds the graph's nodes.
    pub closed spec fn wf(&self) -> bool {
        &&& self.graph@.wf()
        &&& self.spatial_index.wf()
        &&& self.spatial_index@ == locations(self.graph@.nodes)
    }

    /// Builds the engine of a map from its nodes and from the ways to
    /// route over, as `parse_map` builds the graph and the index. A
    /// failure there is handed on unchanged.
    pub fn build(nodes: Vec<Node>, ways: Vec<osm::Way>) -> (r: Result<Engine, ParseError>)
        ensures
            r is Ok <==> used_nodes(nodes@, ways@).len() <= u32::MAX,
            r matches Ok(engine) ==> {
                &&& engine.wf()
                &&& engine@.wf()
                &&& engine@.nodes == used_nodes(nodes@, ways@)
                &&& engine@.adj == group_by_source(
                    engine@.nodes.len(),
                    ways_edges(engine@.index, ways@, ways@.len()),
                )
            },
            r matches Err(e) ==> e is Simple,
    {
        match parse_map(nodes, ways) {
            Ok((graph, tree)) => Ok(Engine { spatial_index: tree, graph }),
            Err(e) => Err(e),
        }
    }

    /// Finds a shortest route between the nodes nearest to two
    /// coordinates.
    ///
    /// Each coordinate resolves to the node that `resolved` names, and no
    /// node lies nearer to the coordinate than that one. The result holds
    /// the nodes of a shortest route from the origin's node to the
    /// destination's, the length of that route, and the location of each
    /// of its nodes. Where both coordinates resolve to one node, the route
    /// is that node alone, of distance 0. The query fails with
    /// `CantFindNearestNode` exactly when the engine has no nodes, and
    /// with `CantFindRoute` exactly when it has nodes and no route leads
    /// from the one node to the other. It never fails with
    /// `CantFindLatLon`.
    pub fn routing(&self, origin: LatLon, destination: LatLon) -> (r: Result<
        RouteResult,
        EngineErrors,
    >)
        requires
            self.wf(),
        ensures
            match r {
                Ok(found) => {
                    &&& resolved(self@, origin) matches Some(start)
                    &&& resolved(self@, destination) matches Some(target)
                    &&& none_nearer_than(self@, origin, start)
                    &&& none_nearer_than(self@, destination, target)
                    &&& exists|route: Seq<Edge>| #[trigger]
                        self@.is_shortest(start, target, route) && route_length(route)
                            == found.total_distance && route_nodes(start, route) == found.nodes@
                    &&& start == target ==> found.total_distance == 0 && found.nodes@
                        == seq![start]
                    &&& found.route_path@.len() == found.nodes@.len()
                    &&& forall|i: int|
                        0 <= i < found.nodes@.len() ==> (#[trigger] found.nodes@[i]).0
                            < self@.nodes.len() && found.route_path@[i]
                            == self@.nodes[found.nodes@[i].0 as int].location
                },
                Err(EngineErrors::CantFindNearestNode) => self@.nodes.len() == 0,
                Err(EngineErrors::CantFindRoute) => {
                    &&& resolved(self@, origin) matches Some(start)
                    &&& resolved(self@, destination) matches Some(target)
                    &&& none_nearer_than(self@, origin, start)
                    &&& none_nearer_than(self@, destination, target)
                    &&& !self@.connected(start, target)
                },
                Err(EngineErrors::CantFindLatLon) => false,
            },
    {
        let start_node = match self.spatial_index.nearest_neighbor(origin) {
            Some(node) => node,
            None => {
                return Err(EngineErrors::CantFindNearestNode);
            },
        };
        let target_node = match self.spatial_index.nearest_neighbor(destination) {
            Some(node) => node,
            None => {
                return Err(EngineErrors::CantFindNearestNode);
            },
        };
        proof {
            assert(none_nearer_than(self@, origin, start_node)) by {
                assert forall|j: int| 0 <= j < self@.nodes.len() implies coordinate_distance_2(
                    self@.nodes[start_node.0 as int].location,
                    origin,
                ) <= coordinate_distance_2((#[trigger] self@.nodes[j]).location, origin) by {
                    assert(self.spatial_index@[j] == self@.nodes[j].location);
                }
            }
            assert(none_nearer_than(self@, destination, target_node)) by {
                assert forall|j: int| 0 <= j < self@.nodes.len() implies coordinate_distance_2(
                    self@.nodes[target_node.0 as int].location,
                    destination,
                ) <= coordinate_distance_2((#[trigger] self@.nodes[j]).location, destination) by {
                    assert(self.spatial_index@[j] == self@.nodes[j].location);
                }
            }
        }
        let (dist, path) = match shortest_path(&self.graph, start_node, target_node) {
            Ok(found) => found,
            Err(_) => {
                return Err(EngineErrors::CantFindRoute);
            },
        };
        proof {
            let route = choose|route: Seq<Edge>| #[trigger]
                self@.is_shortest(start_node, target_node, route) && route_length(route) == dist
                    && route_nodes(start_node, route) == path@;
            lemma_route_nodes_in_graph(self@, start_node, target_node, route);
        }
        let mut navpath: Vec<LatLon> = Vec::new();
        let mut i: usize = 0;
        while i < path.len()
            invariant
                i <= path@.len(),
                navpath@.len() == i,
                forall|k: int|
                    0 <= k < path@.len() ==> (#[trigger] path@[k]).0 < self.graph@.nodes.len(),
                forall|k: int|
                    0 <= k < i ==> navpath@[k] == self.graph@.nodes[(#[trigger] path@[k]).0
                        as int].location,
            decreases path@.len() - i,
        {
            match self.graph.get_latlon(path[i]) {
                Some(location) => navpath.push(location),
                None => {
                    return Err(EngineErrors::CantFindLatLon);
                },
            }
            i = i + 1;
        }
        Ok(RouteResult { total_distance: dist, route_path: navpath, nodes: path })
    }
}

/// Something that can be asked to act.
pub trait Trait1 {
    /// Acts. Nothing is asked of the value and nothing comes back.
    fn method1(&self);
}

impl Trait1 for String {
    fn method1(&self) {
    }
}

impl Trait1 for u8 {
    fn method1(&self) {
    }
}

/// Calls `method1` on a value whose type is known where the call is
/// written: one copy of this function is made for each such type.
pub fn test_static<T>(t: T) where T: Trait1 {
    t.method1();
}

/// Calls `method1` on a value whose type is known only when the call
/// runs: the one copy of this function finds the method through the
/// reference.
pub fn test_dyn(t: &dyn Trait1) {
    t.method1();
}

/// Calls `test_static` at the two types that implement `Trait1`.
pub fn test_x() {
    test_static("helo".to_owned());
    test_static(1u8);
}

} // verus!
