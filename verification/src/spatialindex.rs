//! Nearest-node lookup over the nodes of a graph, kept in an R*-tree.

use crate::graph::{LatLon, Node, NodeID};
use rstar::primitives::GeomWithData;
use rstar::RTree;
use vstd::prelude::*;

verus! {

/// An R*-tree of `rstar` with one entry per node: the node's longitude
/// and latitude as its point, and the node's index as its data.
///
/// The tree computes squares of coordinate differences in the number
/// type of its points. The points hold 128-bit integers, so for
/// coordinates of 32 bits that arithmetic is exact and cannot overflow.
#[verifier::external_body]
pub struct NodeTree {
    tree: RTree<GeomWithData<[i128; 2], usize>>,
}

/// The entries a tree was loaded with, in the order of loading, each as
/// longitude, latitude and data.
pub uninterp spec fn tree_entries(tree: NodeTree) -> Seq<(int, int, int)>;

/// The position among `entries` of the entry that a tree loaded with them
/// returns as nearest to the point of the given longitude and latitude.
pub uninterp spec fn nearest_position(entries: Seq<(int, int, int)>, lon: int, lat: int) -> int;

/// The square of the straight-line distance between two points given as
/// longitude and latitude.
pub open spec fn squared_distance(a_lon: int, a_lat: int, b_lon: int, b_lat: int) -> int {
    (a_lon - b_lon) * (a_lon - b_lon) + (a_lat - b_lat) * (a_lat - b_lat)
}

/// `RTree::bulk_load` on one `GeomWithData` per entry. The tree holds
/// exactly the entries given, in the order given.
#[verifier::external_body]
fn load_tree(entries: Vec<(i32, i32, usize)>) -> (tree: NodeTree)
    ensures
        tree_entries(tree) == entries@.map_values(
            |e: (i32, i32, usize)| (e.0 as int, e.1 as int, e.2 as int),
        ),
{
    NodeTree {
        tree: RTree::bulk_load(
            entries.into_iter().map(|e| GeomWithData::new([e.0 as i128, e.1 as i128], e.2)).collect(),
        ),
    }
}

/// Whether none of `entries` lies nearer to the point of the given
/// longitude and latitude than the entry at position `k`.
pub open spec fn none_nearer(entries: Seq<(int, int, int)>, k: int, lon: int, lat: int) -> bool {
    forall|j: int|
        0 <= j < entries.len() ==> squared_distance(entries[k].0, entries[k].1, lon, lat)
            <= squared_distance((#[trigger] entries[j]).0, entries[j].1, lon, lat)
}

/// `RTree::nearest_neighbor`, handing back the data of the entry found.
/// An empty tree has no nearest entry. Otherwise the entry returned is
/// one of the tree's, none of the tree's entries lies nearer to the
/// query point, and which one it is depends on the entries loaded and on
/// the query point alone.
#[verifier::external_body]
fn nearest_in_tree(tree: &NodeTree, lon: i32, lat: i32) -> (data: Option<usize>)
    ensures
        data is None <==> tree_entries(*tree).len() == 0,
        data is Some ==> 0 <= nearest_position(tree_entries(*tree), lon as int, lat as int)
            < tree_entries(*tree).len(),
        data is Some ==> data.unwrap() == tree_entries(*tree)[nearest_position(
            tree_entries(*tree),
            lon as int,
            lat as int,
        )].2,
        data is Some ==> none_nearer(
            tree_entries(*tree),
            nearest_position(tree_entries(*tree), lon as int, lat as int),
            lon as int,
            lat as int,
        ),
{
    tree.tree.nearest_neighbor(&[lon as i128, lat as i128]).map(|found| found.data)
}

/// The entry that stands for node `i` at `location`.
pub open spec fn entry_of(location: LatLon, i: int) -> (int, int, int) {
    (location.lon as int, location.lat as int, i)
}

/// The square of the straight-line distance between two coordinates,
/// taken as points in the plane of longitude and latitude.
pub open spec fn coordinate_distance_2(a: LatLon, b: LatLon) -> int {
    squared_distance(a.lon as int, a.lat as int, b.lon as int, b.lat as int)
}

/// The index of the node, among those at `points`, that a lookup of
/// `query` resolves to. It is meaningful where `points` is not empty.
pub open spec fn nearest_node(points: Seq<LatLon>, query: LatLon) -> int {
    nearest_position(
        Seq::new(points.len(), |i: int| entry_of(points[i], i)),
        query.lon as int,
        query.lat as int,
    )
}

/// A spatial index over the locations of the nodes of a graph, in node
/// order.
pub struct SpatialIndex(NodeTree);

impl View for SpatialIndex {
    type V = Seq<LatLon>;

    closed spec fn view(&self) -> Seq<LatLon> {
        Seq::new(
            tree_entries(self.0).len(),
            |i: int|
                LatLon { lat: tree_entries(self.0)[i].1 as i32, lon: tree_entries(self.0)[i].0 as i32 },
        )
    }
}

impl SpatialIndex {
    /// The invariant of every index: entry `i` of the tree stands for
    /// node `i`.
    pub closed spec fn wf(&self) -> bool {
        tree_entries(self.0) == Seq::new(self@.len(), |i: int| entry_of(self@[i], i))
    }

    /// Makes the index of the given nodes. Node `i` is found again under
    /// the index `i`.
    pub fn build(nodes: &Vec<Node>) -> (index: SpatialIndex)
        ensures
            index.wf(),
            index@ == nodes@.map_values(|n: Node| n.location),
    {
        let mut entries: Vec<(i32, i32, usize)> = Vec::new();
        let mut i: usize = 0;
        while i < nodes.len()
            invariant
                i <= nodes@.len(),
                entries@.len() == i,
                forall|k: int|
                    0 <= k < i ==> (#[trigger] entries@[k]) == (
                        nodes@[k].location.lon,
                        nodes@[k].location.lat,
                        k as usize,
                    ),
            decreases nodes@.len() - i,
        {
            entries.push((nodes[i].location.lon, nodes[i].location.lat, i));
            i = i + 1;
        }
        let index = SpatialIndex(load_tree(entries));
        proof {
            assert(index@ =~= nodes@.map_values(|n: Node| n.location));
            assert(tree_entries(index.0) =~= Seq::new(index@.len(), |i: int| entry_of(index@[i], i)));
        }
        index
    }

    /// The node nearest to `query`, or `None` when the index is empty.
    /// No node of the index lies nearer to `query` than the one returned,
    /// by the straight-line distance in the plane of longitude and
    /// latitude. Among several nearest nodes the choice depends on the
    /// nodes and the query alone.
    pub fn nearest_neighbor(&self, query: LatLon) -> (found: Option<NodeID>)
        requires
            self.wf(),
        ensures
            self@.len() == 0 ==> found is None,
            self@.len() > 0 ==> found == Some(NodeID(nearest_node(self@, query) as usize)),
            found matches Some(id) ==> {
                &&& id.0 < self@.len()
                &&& forall|j: int|
                    0 <= j < self@.len() ==> coordinate_distance_2(self@[id.0 as int], query)
                        <= coordinate_distance_2(#[trigger] self@[j], query)
            },
    {
        match nearest_in_tree(&self.0, query.lon, query.lat) {
            Some(data) => {
                proof {
                    let entries = tree_entries(self.0);
                    let k = nearest_position(entries, query.lon as int, query.lat as int);
                    assert(entries[k] == entry_of(self@[k], k));
                    assert forall|j: int| 0 <= j < self@.len() implies coordinate_distance_2(
                        self@[k],
                        query,
                    ) <= coordinate_distance_2(#[trigger] self@[j], query) by {
                        assert(entries[j] == entry_of(self@[j], j));
                    }
                }
                Some(NodeID(data))
            },
            None => None,
        }
    }
}

} // verus!
