use route_graph::graph_helper::{
    get_all_edge_ids, get_all_neighbours, get_down_edge_ids, get_down_neighbors, get_edge_ids,
    get_edges_from_id, get_neighbours, get_up_edge_ids, get_up_neighbors,
};
use route_graph::Way;

fn way(source: usize, target: usize, weight: usize) -> Way {
    Way { source, target, weight, kind: 0 }
}

// Edges grouped by source, with a reverse offset array and index map by target.
fn sample() -> (Vec<Way>, Vec<usize>, Vec<usize>, Vec<usize>) {
    let edges = vec![
        way(0, 1, 1),
        way(0, 2, 4),
        way(0, 1, 2),
        way(1, 2, 1),
        way(2, 0, 3),
        way(3, 2, 1),
    ];
    let up_offset = vec![0, 3, 4, 5, 6];
    // Incoming: node 0 <- edge 4; node 1 <- edges 0, 2; node 2 <- edges 1, 3, 5; node 3 <- none.
    let down_offset = vec![0, 1, 3, 6, 6];
    let down_index = vec![4, 0, 2, 5, 3, 1];
    (edges, up_offset, down_offset, down_index)
}

#[test]
fn edges_from_ids_in_order() {
    let (edges, _, _, _) = sample();
    let r = get_edges_from_id(vec![3, 0, 3], &edges);
    assert_eq!(r, vec![edges[3], edges[0], edges[3]]);
}

#[test]
fn up_edge_ids_are_the_range() {
    let (_, up, _, _) = sample();
    assert_eq!(get_up_edge_ids(0, &up), vec![0, 1, 2]);
    assert_eq!(get_up_edge_ids(3, &up), vec![5]);
}

#[test]
fn down_edge_ids_go_through_index() {
    let (_, _, down, index) = sample();
    assert_eq!(get_down_edge_ids(2, &down, &index), vec![5, 3, 1]);
    assert_eq!(get_down_edge_ids(3, &down, &index), Vec::<usize>::new());
}

#[test]
fn edge_ids_both_directions() {
    let (_, up, down, index) = sample();
    assert_eq!(get_edge_ids(1, &up, &down, &index), (vec![3], vec![0, 2]));
    assert_eq!(get_all_edge_ids(1, &up, &down, &index), vec![3, 0, 2]);
}

#[test]
fn up_neighbors_are_deduplicated() {
    let (edges, up, _, _) = sample();
    assert_eq!(get_up_neighbors(0, &edges, &up), vec![1, 2]);
}

#[test]
fn down_neighbors_sorted_and_deduplicated() {
    let (edges, _, down, index) = sample();
    assert_eq!(get_down_neighbors(2, &edges, &down, &index), vec![0, 1, 3]);
    assert_eq!(get_down_neighbors(1, &edges, &down, &index), vec![0]);
}

#[test]
fn neighbours_both_directions() {
    let (edges, up, down, index) = sample();
    assert_eq!(get_neighbours(2, &edges, &up, &down, &index), (vec![0], vec![0, 1, 3]));
    assert_eq!(get_all_neighbours(2, &edges, &up, &down, &index), vec![0, 0, 1, 3]);
}
