use simple_nav::graph::{shortest_path, Edge, Graph, LatLon, Node, NodeID};
use simple_nav::osm;

fn node(id: i64) -> Node {
    Node { id: osm::NodeID(id), location: LatLon { lat: 0, lon: 0 } }
}

fn nodes(n: usize) -> Vec<Node> {
    (0..n).map(|i| node(100 + i as i64)).collect()
}

fn edge(from: usize, to: usize, distance: u32) -> Edge {
    Edge { from_node: NodeID(from), to_node: NodeID(to), distance }
}

fn both_ways(pairs: &[(usize, usize, u32)]) -> Vec<Edge> {
    let mut edges = Vec::new();
    for &(a, b, d) in pairs {
        edges.push(edge(a, b, d));
        edges.push(edge(b, a, d));
    }
    edges
}

/// Length of a shortest route by repeated relaxation of every edge.
fn reference_distance(n: usize, edges: &[Edge], s: usize, t: usize) -> Option<u64> {
    let mut dist: Vec<Option<u64>> = vec![None; n];
    dist[s] = Some(0);
    for _ in 0..n {
        for e in edges {
            if let Some(d) = dist[e.from_node.0] {
                let through = d + e.distance as u64;
                let better = match dist[e.to_node.0] {
                    Some(known) => through < known,
                    None => true,
                };
                if better {
                    dist[e.to_node.0] = Some(through);
                }
            }
        }
    }
    dist[t]
}

/// Length of a shortest route by trying every route that repeats no node.
fn exhaustive_distance(
    n: usize,
    edges: &[Edge],
    at: usize,
    t: usize,
    seen: &mut Vec<bool>,
) -> Option<u64> {
    if at == t {
        return Some(0);
    }
    let mut best: Option<u64> = None;
    seen[at] = true;
    for e in edges {
        if e.from_node.0 == at && !seen[e.to_node.0] {
            if let Some(rest) = exhaustive_distance(n, edges, e.to_node.0, t, seen) {
                let total = rest + e.distance as u64;
                if best.map_or(true, |b| total < b) {
                    best = Some(total);
                }
            }
        }
    }
    seen[at] = false;
    best
}

/// The least distance among the edges from `a` to `b`, if there is one.
fn least_edge(edges: &[Edge], a: NodeID, b: NodeID) -> Option<u32> {
    edges.iter().filter(|e| e.from_node == a && e.to_node == b).map(|e| e.distance).min()
}

struct Lcg(u64);

impl Lcg {
    fn next(&mut self, bound: u64) -> u64 {
        self.0 = self.0.wrapping_mul(6364136223846793005).wrapping_add(1442695040888963407);
        (self.0 >> 33) % bound
    }
}

fn random_edges(rng: &mut Lcg, n: usize, count: usize, max_distance: u64) -> Vec<Edge> {
    let mut edges = Vec::new();
    for _ in 0..count {
        let a = rng.next(n as u64) as usize;
        let b = rng.next(n as u64) as usize;
        let d = rng.next(max_distance + 1) as u32;
        edges.push(edge(a, b, d));
    }
    edges
}

#[test]
fn four_nodes_example() {
    // A-B(1), B-C(2), A-C(5), C-D(1), each in both directions
    let edges = both_ways(&[(0, 1, 1), (1, 2, 2), (0, 2, 5), (2, 3, 1)]);
    let g = Graph::new(nodes(4), edges);
    let (distance, path) = shortest_path(&g, NodeID(0), NodeID(3)).unwrap();
    assert_eq!(distance, 4);
    assert_eq!(path, vec![NodeID(0), NodeID(1), NodeID(2), NodeID(3)]);
}

#[test]
fn four_nodes_example_backwards() {
    let edges = both_ways(&[(0, 1, 1), (1, 2, 2), (0, 2, 5), (2, 3, 1)]);
    let g = Graph::new(nodes(4), edges);
    let (distance, path) = shortest_path(&g, NodeID(3), NodeID(0)).unwrap();
    assert_eq!(distance, 4);
    assert_eq!(path, vec![NodeID(3), NodeID(2), NodeID(1), NodeID(0)]);
}

#[test]
fn isolated_node_has_no_route() {
    let edges = both_ways(&[(0, 1, 1), (1, 2, 2), (0, 2, 5), (2, 3, 1)]);
    let g = Graph::new(nodes(5), edges);
    assert!(shortest_path(&g, NodeID(0), NodeID(4)).is_err());
    assert!(shortest_path(&g, NodeID(4), NodeID(0)).is_err());
}

#[test]
fn node_to_itself() {
    let edges = both_ways(&[(0, 1, 1), (1, 2, 0), (0, 2, 5)]);
    let g = Graph::new(nodes(4), edges);
    for s in 0..4 {
        let (distance, path) = shortest_path(&g, NodeID(s), NodeID(s)).unwrap();
        assert_eq!(distance, 0);
        assert_eq!(path, vec![NodeID(s)]);
    }
}

#[test]
fn separate_components_have_no_route() {
    let edges = both_ways(&[(0, 1, 3), (1, 2, 4), (3, 4, 1), (4, 5, 1)]);
    let g = Graph::new(nodes(6), edges);
    for s in 0..3 {
        for t in 3..6 {
            assert!(shortest_path(&g, NodeID(s), NodeID(t)).is_err());
            assert!(shortest_path(&g, NodeID(t), NodeID(s)).is_err());
        }
    }
    assert_eq!(shortest_path(&g, NodeID(0), NodeID(2)).unwrap().0, 7);
    assert_eq!(shortest_path(&g, NodeID(5), NodeID(3)).unwrap().0, 2);
}

#[test]
fn direction_of_an_edge_counts() {
    let g = Graph::new(nodes(2), vec![edge(0, 1, 9)]);
    assert_eq!(shortest_path(&g, NodeID(0), NodeID(1)).unwrap().0, 9);
    assert!(shortest_path(&g, NodeID(1), NodeID(0)).is_err());
}

#[test]
fn target_outside_the_graph_has_no_route() {
    let g = Graph::new(nodes(2), vec![edge(0, 1, 9)]);
    assert!(shortest_path(&g, NodeID(0), NodeID(2)).is_err());
    assert!(shortest_path(&g, NodeID(0), NodeID(usize::MAX)).is_err());
}

#[test]
fn cheaper_of_two_parallel_edges_is_taken() {
    let g = Graph::new(nodes(2), vec![edge(0, 1, 9), edge(0, 1, 4), edge(0, 1, 6)]);
    let (distance, path) = shortest_path(&g, NodeID(0), NodeID(1)).unwrap();
    assert_eq!(distance, 4);
    assert_eq!(path, vec![NodeID(0), NodeID(1)]);
}

#[test]
fn detour_beats_direct_edge() {
    let g = Graph::new(nodes(3), vec![edge(0, 2, 10), edge(0, 1, 3), edge(1, 2, 3)]);
    let (distance, path) = shortest_path(&g, NodeID(0), NodeID(2)).unwrap();
    assert_eq!(distance, 6);
    assert_eq!(path, vec![NodeID(0), NodeID(1), NodeID(2)]);
}

#[test]
fn zero_distance_cycle_is_harmless() {
    let edges = vec![edge(0, 1, 0), edge(1, 0, 0), edge(1, 2, 0), edge(2, 1, 0), edge(2, 3, 7)];
    let g = Graph::new(nodes(4), edges);
    let (distance, path) = shortest_path(&g, NodeID(0), NodeID(3)).unwrap();
    assert_eq!(distance, 7);
    assert_eq!(path, vec![NodeID(0), NodeID(1), NodeID(2), NodeID(3)]);
}

#[test]
fn longest_edges_add_up_without_wrapping() {
    let g = Graph::new(nodes(3), vec![edge(0, 1, u32::MAX), edge(1, 2, u32::MAX)]);
    let (distance, _) = shortest_path(&g, NodeID(0), NodeID(2)).unwrap();
    assert_eq!(distance, 2 * (u32::MAX as u64));
}

#[test]
fn distance_is_the_least_over_all_routes() {
    let mut rng = Lcg(7);
    for round in 0..60 {
        let n = 2 + (round % 5);
        let count = rng.next(3 * n as u64) as usize;
        let edges = random_edges(&mut rng, n, count, 20);
        let g = Graph::new(nodes(n), edges.clone());
        for s in 0..n {
            for t in 0..n {
                let mut seen = vec![false; n];
                let expected = exhaustive_distance(n, &edges, s, t, &mut seen);
                assert_eq!(expected, reference_distance(n, &edges, s, t));
                match shortest_path(&g, NodeID(s), NodeID(t)) {
                    Ok((distance, _)) => assert_eq!(Some(distance), expected),
                    Err(_) => assert_eq!(None, expected),
                }
            }
        }
    }
}

#[test]
fn distance_is_the_least_on_larger_graphs() {
    let mut rng = Lcg(2024);
    for _ in 0..20 {
        let n = 40;
        let edges = random_edges(&mut rng, n, 120, 1000);
        let g = Graph::new(nodes(n), edges.clone());
        for s in [0usize, 7, 39] {
            for t in 0..n {
                let expected = reference_distance(n, &edges, s, t);
                match shortest_path(&g, NodeID(s), NodeID(t)) {
                    Ok((distance, _)) => assert_eq!(Some(distance), expected),
                    Err(_) => assert_eq!(None, expected),
                }
            }
        }
    }
}

#[test]
fn path_follows_edges_and_adds_up() {
    let mut rng = Lcg(99);
    for _ in 0..40 {
        let n = 8;
        let edges = random_edges(&mut rng, n, 20, 50);
        let g = Graph::new(nodes(n), edges.clone());
        for s in 0..n {
            for t in 0..n {
                if let Ok((distance, path)) = shortest_path(&g, NodeID(s), NodeID(t)) {
                    assert_eq!(path.first(), Some(&NodeID(s)));
                    assert_eq!(path.last(), Some(&NodeID(t)));
                    let mut total: u64 = 0;
                    for pair in path.windows(2) {
                        let step = least_edge(&edges, pair[0], pair[1]);
                        assert!(step.is_some());
                        let listed = g.adjacent_edges(pair[0]).unwrap();
                        assert!(listed.iter().any(|e| e.to_node == pair[1]));
                        total += step.unwrap() as u64;
                    }
                    assert_eq!(total, distance);
                }
            }
        }
    }
}

#[test]
fn same_query_gives_same_answer() {
    let edges = both_ways(&[(0, 1, 1), (0, 2, 1), (1, 3, 1), (2, 3, 1)]);
    let g = Graph::new(nodes(4), edges);
    let first = shortest_path(&g, NodeID(0), NodeID(3)).unwrap();
    for _ in 0..10 {
        let again = shortest_path(&g, NodeID(0), NodeID(3)).unwrap();
        assert_eq!(again.0, 2);
        assert_eq!(again, first);
    }
}
