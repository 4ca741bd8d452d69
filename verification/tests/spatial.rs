use simple_nav::graph::{LatLon, Node, NodeID};
use simple_nav::osm;
use simple_nav::spatialindex::SpatialIndex;

fn node(id: i64, lat: i32, lon: i32) -> Node {
    Node { id: osm::NodeID(id), location: LatLon { lat, lon } }
}

fn squared(a: LatLon, b: LatLon) -> i128 {
    let dx = a.lon as i128 - b.lon as i128;
    let dy = a.lat as i128 - b.lat as i128;
    dx * dx + dy * dy
}

#[test]
fn empty_index_finds_nothing() {
    let index = SpatialIndex::build(&vec![]);
    assert_eq!(index.nearest_neighbor(LatLon { lat: 0, lon: 0 }), None);
}

#[test]
fn single_node_is_always_nearest() {
    let index = SpatialIndex::build(&vec![node(7, 385374730, -750572980)]);
    assert_eq!(index.nearest_neighbor(LatLon { lat: 0, lon: 0 }), Some(NodeID(0)));
    assert_eq!(index.nearest_neighbor(LatLon { lat: i32::MAX, lon: i32::MIN }), Some(NodeID(0)));
}

#[test]
fn nearest_node_is_found_by_index() {
    let nodes = vec![node(1, 0, 0), node(2, 0, 100), node(3, 100, 0), node(4, 100, 100)];
    let index = SpatialIndex::build(&nodes);
    assert_eq!(index.nearest_neighbor(LatLon { lat: 1, lon: 2 }), Some(NodeID(0)));
    assert_eq!(index.nearest_neighbor(LatLon { lat: 10, lon: 90 }), Some(NodeID(1)));
    assert_eq!(index.nearest_neighbor(LatLon { lat: 95, lon: -3 }), Some(NodeID(2)));
    assert_eq!(index.nearest_neighbor(LatLon { lat: 1000, lon: 1000 }), Some(NodeID(3)));
}

#[test]
fn longitude_and_latitude_are_not_swapped() {
    let nodes = vec![node(1, 0, 50), node(2, 50, 0)];
    let index = SpatialIndex::build(&nodes);
    assert_eq!(index.nearest_neighbor(LatLon { lat: 0, lon: 60 }), Some(NodeID(0)));
    assert_eq!(index.nearest_neighbor(LatLon { lat: 60, lon: 0 }), Some(NodeID(1)));
}

#[test]
fn extreme_coordinates_do_not_overflow() {
    let nodes = vec![node(1, i32::MIN, i32::MIN), node(2, i32::MAX, i32::MAX), node(3, 0, 0)];
    let index = SpatialIndex::build(&nodes);
    assert_eq!(index.nearest_neighbor(LatLon { lat: i32::MAX, lon: i32::MAX - 5 }), Some(NodeID(1)));
    assert_eq!(index.nearest_neighbor(LatLon { lat: i32::MIN + 5, lon: i32::MIN }), Some(NodeID(0)));
    assert_eq!(index.nearest_neighbor(LatLon { lat: -7, lon: 9 }), Some(NodeID(2)));
}

#[test]
fn no_node_lies_nearer_than_the_one_found() {
    let mut state: u64 = 42;
    let mut draw = |bound: i64| {
        state = state.wrapping_mul(6364136223846793005).wrapping_add(1442695040888963407);
        ((state >> 33) % (2 * bound as u64)) as i64 - bound
    };
    let mut nodes = Vec::new();
    for i in 0..300 {
        nodes.push(node(i, draw(900_000_000) as i32, draw(1_800_000_000) as i32));
    }
    let index = SpatialIndex::build(&nodes);
    for _ in 0..200 {
        let query = LatLon { lat: draw(900_000_000) as i32, lon: draw(1_800_000_000) as i32 };
        let found = index.nearest_neighbor(query).unwrap();
        let best = nodes.iter().map(|n| squared(n.location, query)).min().unwrap();
        assert_eq!(squared(nodes[found.0].location, query), best);
    }
}

#[test]
fn same_query_resolves_to_the_same_node() {
    // four nodes at the same distance from the query
    let nodes = vec![node(1, 10, 0), node(2, -10, 0), node(3, 0, 10), node(4, 0, -10)];
    let index = SpatialIndex::build(&nodes);
    let again = SpatialIndex::build(&nodes);
    let query = LatLon { lat: 0, lon: 0 };
    let first = index.nearest_neighbor(query);
    assert!(first.is_some());
    for _ in 0..20 {
        assert_eq!(index.nearest_neighbor(query), first);
        assert_eq!(again.nearest_neighbor(query), first);
    }
}
