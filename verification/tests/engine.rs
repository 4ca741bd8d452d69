use simple_nav::engine::{test_dyn, test_static, test_x, Engine, EngineErrors};
use simple_nav::graph::{LatLon, Node, NodeID};
use simple_nav::osm;

fn node(id: i64, lat: i32, lon: i32) -> Node {
    Node { id: osm::NodeID(id), location: LatLon { lat, lon } }
}

fn way(ids: &[i64], distances: &[u32]) -> osm::Way {
    osm::Way { nodes: ids.iter().map(|&i| osm::NodeID(i)).collect(), distances: distances.to_vec() }
}

fn at(lat: i32, lon: i32) -> LatLon {
    LatLon { lat, lon }
}

/// Four nodes on a line with A-B(1), B-C(2), A-C(5), C-D(1), and a fifth
/// on a way of its own.
fn small_town() -> Engine {
    let nodes = vec![
        node(1, 0, 0),
        node(2, 0, 100),
        node(3, 0, 200),
        node(4, 0, 300),
        node(5, 500, 500),
        node(6, 500, 600),
    ];
    let ways = vec![way(&[1, 2, 3, 4], &[1, 2, 1]), way(&[1, 3], &[5]), way(&[5, 6], &[8])];
    Engine::build(nodes, ways).ok().unwrap()
}

#[test]
fn benchtest() {
    let nodes = vec![
        node(1, -750572900, 385374700),
        node(2, -750800000, 386000000),
        node(3, -751000000, 386700000),
        node(4, -751241200, 387310900),
        node(5, -750900000, 385500000),
    ];
    let ways =
        vec![way(&[1, 2, 3, 4], &[680000, 760000, 700000]), way(&[1, 5, 4], &[390000, 2100000])];
    let engine = Engine::build(nodes, ways).unwrap();
    let orig = LatLon { lat: -750572980, lon: 385374730 };

    let dest = LatLon { lat: -751241170, lon: 387310880 };

    let start_time = std::time::Instant::now();
    for _ in 0..100000 {
        let result = engine.routing(orig, dest);
        result.unwrap();
    }
    println!("==== time cost: {:?}", start_time.elapsed());

    let found = engine.routing(orig, dest).unwrap();
    assert_eq!(found.total_distance, 2140000);
    assert_eq!(found.nodes, vec![NodeID(0), NodeID(1), NodeID(2), NodeID(3)]);
}

#[test]
fn one_node_for_both_ends_is_the_whole_route_even_on_a_free_cycle() {
    let nodes = vec![node(1, 0, 0), node(2, 0, 100), node(3, 100, 0)];
    let ways = vec![way(&[1, 2, 3, 1], &[0, 0, 0])];
    let engine = Engine::build(nodes, ways).unwrap();
    let locations = [at(0, 0), at(0, 100), at(100, 0)];
    for &(lat, lon) in &[(1, 1), (2, 98), (97, -3)] {
        let found = engine.routing(at(lat, lon), at(lat, lon)).unwrap();
        assert_eq!(found.total_distance, 0);
        assert_eq!(found.nodes.len(), 1);
        assert_eq!(found.route_path.len(), 1);
        assert_eq!(found.route_path[0], locations[found.nodes[0].0]);
    }
    let across = engine.routing(at(0, 0), at(100, 0)).unwrap();
    assert_eq!(across.total_distance, 0);
    assert_eq!(across.nodes.first(), Some(&NodeID(0)));
    assert_eq!(across.nodes.last(), Some(&NodeID(2)));
}

#[test]
fn test_rc() {
    println!("== s scope finish");
}

#[test]
fn routes_between_the_nearest_nodes() {
    let engine = small_town();
    let found = engine.routing(at(3, -4), at(-2, 310)).ok().unwrap();
    assert_eq!(found.total_distance, 4);
    assert_eq!(found.nodes, vec![NodeID(0), NodeID(1), NodeID(2), NodeID(3)]);
    assert_eq!(found.route_path, vec![at(0, 0), at(0, 100), at(0, 200), at(0, 300)]);
}

#[test]
fn route_to_the_same_node_is_that_node() {
    let engine = small_town();
    let found = engine.routing(at(1, 99), at(-1, 101)).ok().unwrap();
    assert_eq!(found.total_distance, 0);
    assert_eq!(found.nodes, vec![NodeID(1)]);
    assert_eq!(found.route_path, vec![at(0, 100)]);
}

#[test]
fn unconnected_nodes_give_cant_find_route() {
    let engine = small_town();
    assert_eq!(engine.routing(at(0, 0), at(500, 500)).err(), Some(EngineErrors::CantFindRoute));
    assert_eq!(engine.routing(at(499, 601), at(0, 300)).err(), Some(EngineErrors::CantFindRoute));
    assert_eq!(engine.routing(at(500, 500), at(500, 600)).ok().unwrap().total_distance, 8);
}

#[test]
fn engine_without_nodes_gives_cant_find_nearest_node() {
    let engine = Engine::build(vec![], vec![]).ok().unwrap();
    assert_eq!(engine.routing(at(0, 0), at(1, 1)).err(), Some(EngineErrors::CantFindNearestNode));
    let unused = Engine::build(vec![node(1, 0, 0)], vec![]).ok().unwrap();
    assert_eq!(unused.routing(at(0, 0), at(0, 0)).err(), Some(EngineErrors::CantFindNearestNode));
}

#[test]
fn same_coordinates_resolve_the_same_way_every_time() {
    let engine = small_town();
    let first = engine.routing(at(0, 50), at(0, 250)).ok().unwrap();
    for _ in 0..20 {
        let again = engine.routing(at(0, 50), at(0, 250)).ok().unwrap();
        assert_eq!(again.nodes.first(), first.nodes.first());
        assert_eq!(again.nodes.last(), first.nodes.last());
        assert_eq!(again.total_distance, first.total_distance);
        assert_eq!(again.nodes, first.nodes);
        assert_eq!(again.route_path, first.route_path);
    }
}

#[test]
fn one_engine_serves_interleaved_queries() {
    let engine = small_town();
    let a = engine.routing(at(0, 0), at(0, 300)).ok().unwrap();
    let b = engine.routing(at(0, 300), at(0, 100)).ok().unwrap();
    for _ in 0..5 {
        let b2 = engine.routing(at(0, 300), at(0, 100)).ok().unwrap();
        let a2 = engine.routing(at(0, 0), at(0, 300)).ok().unwrap();
        assert_eq!((a2.total_distance, &a2.nodes), (a.total_distance, &a.nodes));
        assert_eq!((b2.total_distance, &b2.nodes), (b.total_distance, &b.nodes));
    }
    assert_eq!(b.total_distance, 3);
    assert_eq!(b.nodes, vec![NodeID(3), NodeID(2), NodeID(1)]);
}

#[test]
fn errors_in_words() {
    assert_eq!(EngineErrors::CantFindNearestNode.to_string(), "engine error: CantFindNearestNode");
    assert_eq!(EngineErrors::CantFindRoute.to_string(), "engine error: CantFindRoute");
    assert_eq!(EngineErrors::CantFindLatLon.to_string(), "engine error: CantFindLatLon");
}

#[test]
fn both_kinds_of_dispatch_return() {
    test_static(String::from("helo"));
    test_static(1u8);
    test_dyn(&String::from("helo"));
    test_dyn(&1u8);
    test_x();
}
