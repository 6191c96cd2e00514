use route_graph::graph::{ConstructionError, Graph};
use route_graph::Way;

#[derive(Clone, Copy, Debug, PartialEq)]
struct Node {
    latitude: f32,
    longitude: f32,
}

fn way(source: usize, target: usize, weight: usize) -> Way {
    Way { source, target, weight, kind: 0 }
}

fn node(latitude: f32, longitude: f32) -> Node {
    Node { latitude, longitude }
}

fn triangle() -> Graph<Node> {
    let nodes = vec![node(0.0, 0.0), node(0.0, 1.0), node(1.0, 1.0)];
    let ways = vec![way(0, 1, 5), way(0, 2, 10), way(1, 2, 3)];
    let offset = vec![0, 2, 3, 3];
    Graph::new(nodes, ways, offset).unwrap()
}

#[test]
fn cheaper_two_hop_route_wins() {
    let g = triangle();
    assert_eq!(g.find_path(0, 2, 1, false), Some((vec![0, 1, 2], 8)));
}

#[test]
fn edges_are_directed() {
    let g = triangle();
    assert_eq!(g.find_path(2, 0, 1, false), None);
}

#[test]
fn path_to_itself_is_free() {
    let g = triangle();
    for v in 0..3 {
        assert_eq!(g.find_path(v, v, 1, false), Some((vec![v], 0)));
    }
}

#[test]
fn disconnected_component_is_unreachable() {
    let nodes = vec![node(0.0, 0.0), node(0.0, 1.0), node(5.0, 5.0), node(5.0, 6.0)];
    let ways = vec![way(0, 1, 2), way(1, 0, 2), way(2, 3, 1), way(3, 2, 1)];
    let offset = vec![0, 1, 2, 3, 4];
    let g = Graph::new(nodes, ways, offset).unwrap();
    assert_eq!(g.find_path(0, 3, 0, false), None);
    assert_eq!(g.find_path(2, 1, 0, false), None);
    assert_eq!(g.find_path(2, 3, 0, false), Some((vec![2, 3], 1)));
}

#[test]
fn minimal_cost_against_enumeration() {
    // A small grid-like graph with parallel and zero-weight edges.
    let nodes = vec![node(0.0, 0.0); 5];
    let ways = vec![
        way(0, 1, 4),
        way(0, 2, 1),
        way(1, 3, 1),
        way(2, 1, 2),
        way(2, 1, 1),
        way(2, 3, 5),
        way(3, 4, 0),
        way(4, 0, 7),
    ];
    let offset = vec![0, 2, 3, 6, 7, 8];
    let g = Graph::new(nodes, ways.clone(), offset.clone()).unwrap();
    // Brute force: cheapest cost over all simple paths.
    fn best(ways: &Vec<Way>, from: usize, to: usize, seen: &mut Vec<bool>) -> Option<usize> {
        if from == to {
            return Some(0);
        }
        seen[from] = true;
        let mut r: Option<usize> = None;
        for w in ways.iter().filter(|w| w.source == from) {
            if !seen[w.target] {
                if let Some(c) = best(ways, w.target, to, seen) {
                    let t = c + w.weight;
                    r = Some(r.map_or(t, |x| x.min(t)));
                }
            }
        }
        seen[from] = false;
        r
    }
    for s in 0..5 {
        for d in 0..5 {
            let expected = best(&ways, s, d, &mut vec![false; 5]);
            match g.find_path(s, d, 0, false) {
                Some((path, cost)) => {
                    assert_eq!(Some(cost), expected);
                    assert_eq!(path[0], s);
                    assert_eq!(*path.last().unwrap(), d);
                    let mut sum = 0;
                    for pair in path.windows(2) {
                        sum += ways
                            .iter()
                            .filter(|w| w.source == pair[0] && w.target == pair[1])
                            .map(|w| w.weight)
                            .min()
                            .unwrap();
                    }
                    assert_eq!(sum, cost);
                }
                None => assert_eq!(expected, None),
            }
        }
    }
}

#[test]
fn construction_rejects_bad_offsets() {
    let nodes = vec![node(0.0, 0.0), node(0.0, 1.0)];
    let ways = vec![way(0, 1, 1)];
    assert_eq!(
        Graph::new(nodes.clone(), ways.clone(), vec![0, 1]).err(),
        Some(ConstructionError::BadOffsets)
    );
    assert_eq!(
        Graph::new(nodes.clone(), ways.clone(), vec![0, 1, 2]).err(),
        Some(ConstructionError::BadOffsets)
    );
    assert_eq!(
        Graph::new(nodes.clone(), vec![way(0, 1, 1), way(1, 0, 1)], vec![0, 2, 1]).err(),
        Some(ConstructionError::BadOffsets)
    );
    assert!(Graph::new(nodes, ways, vec![0, 1, 1]).is_ok());
}

#[test]
fn construction_rejects_bad_endpoints() {
    let nodes = vec![node(0.0, 0.0), node(0.0, 1.0)];
    assert_eq!(
        Graph::new(nodes.clone(), vec![way(0, 2, 1)], vec![0, 1, 1]).err(),
        Some(ConstructionError::BadEndpoint)
    );
    assert_eq!(
        Graph::new(nodes.clone(), vec![way(1, 0, 1)], vec![0, 1, 1]).err(),
        Some(ConstructionError::BadEndpoint)
    );
}

#[test]
fn edge_weight_lookup() {
    let g = triangle();
    assert_eq!(g.get_edge_weight(0, 1), Some(5));
    assert_eq!(g.get_edge_weight(0, 2), Some(10));
    assert_eq!(g.get_edge_weight(1, 2), Some(3));
    assert_eq!(g.get_edge_weight(1, 0), None);
    assert_eq!(g.get_edge_weight(2, 0), None);
}

#[test]
fn zero_weight_is_not_missing_edge() {
    let nodes = vec![node(0.0, 0.0), node(0.0, 1.0)];
    let g = Graph::new(nodes, vec![way(0, 1, 0)], vec![0, 1, 1]).unwrap();
    assert_eq!(g.get_edge_weight(0, 1), Some(0));
    assert_eq!(g.get_edge_weight(1, 0), None);
}

#[test]
fn coordinates_keep_order_and_count() {
    let g = triangle();
    let c = g.get_coordinates(vec![2, 0, 1, 0]).unwrap();
    assert_eq!(c.len(), 4);
    assert_eq!(c, vec![node(1.0, 1.0), node(0.0, 0.0), node(0.0, 1.0), node(0.0, 0.0)]);
    assert_eq!(g.get_coordinates(vec![]).unwrap().len(), 0);
}

#[test]
fn coordinates_reject_out_of_range_index() {
    let g = triangle();
    assert_eq!(g.get_coordinates(vec![0, 3]), None);
}

#[test]
fn point_id_takes_smallest_key() {
    let g = triangle();
    let keys: Vec<u32> = [3.5f32, 0.25, 1.0].iter().map(|d| d.to_bits()).collect();
    assert_eq!(g.get_point_id(&keys), 1);
}

#[test]
fn point_id_ties_go_to_lowest_index() {
    let g = triangle();
    assert_eq!(g.get_point_id(&vec![7, 2, 2]), 1);
    assert_eq!(g.get_point_id(&vec![0, 9, 0]), 0);
}

#[test]
fn point_id_exact_node_is_chosen() {
    let g = triangle();
    let keys: Vec<u32> = [111.2f32, 157.2, 0.0].iter().map(|d| d.to_bits()).collect();
    assert_eq!(g.get_point_id(&keys), 2);
}

#[test]
fn point_id_of_empty_graph_is_zero() {
    let g: Graph<Node> = Graph::new(vec![], vec![], vec![0]).unwrap();
    assert_eq!(g.get_point_id(&vec![]), 0);
}

#[test]
fn outgoing_range_bounds_each_node() {
    let g = triangle();
    assert_eq!(g.outgoing_range(0), (0, 2));
    assert_eq!(g.outgoing_range(1), (2, 3));
    assert_eq!(g.outgoing_range(2), (3, 3));
}

#[test]
fn edge_cost_is_stored_weight() {
    let w = way(0, 1, 42);
    assert_eq!(route_graph::graph::edge_cost(&w, 1, false), 42);
    assert_eq!(route_graph::graph::edge_cost(&w, 3, true), 42);
}
