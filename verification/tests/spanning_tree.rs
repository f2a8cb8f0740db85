use mst_tour::edge::Edge;
use mst_tour::graph::{is_adjacency_matrix, GraphError};
use mst_tour::mst::{build_mst, materialize, select_crossing_edges};
use mst_tour::queue::EdgeQueue;

fn triples(edges: &Vec<Edge>) -> Vec<(u32, u32, i32)> {
    edges.iter().map(|e| (e.src, e.dst, e.weight)).collect()
}

fn complete_four() -> Vec<Vec<i32>> {
    vec![vec![0, 1, 3, 4], vec![1, 0, 2, 5], vec![3, 2, 0, 6], vec![4, 5, 6, 0]]
}

/// A ring of `n` vertices with chords, weights all distinct.
fn ring_with_chords(n: usize) -> Vec<Vec<i32>> {
    let mut m = vec![vec![0; n]; n];
    let mut w = 1;
    for i in 0..n {
        for j in (i + 1)..n {
            if j == i + 1 || (i == 0 && j == n - 1) || (i + j) % 3 == 0 {
                let weight = ((w * 37) % 101) + 1 + (w as i32) * 101;
                m[i][j] = weight;
                m[j][i] = weight;
                w += 1;
            }
        }
    }
    m
}

fn find(parent: &mut Vec<usize>, v: usize) -> usize {
    let mut r = v;
    while parent[r] != r {
        r = parent[r];
    }
    parent[v] = r;
    r
}

#[test]
fn complete_graph_of_four_gives_the_expected_tree() {
    let matrix = complete_four();
    assert!(is_adjacency_matrix(&matrix));
    let tree = build_mst(&matrix).unwrap();
    assert_eq!(triples(&tree.edges), vec![(0, 1, 1), (1, 2, 2), (0, 3, 4)]);
    assert_eq!(
        tree.matrix,
        vec![vec![0, 1, 0, 4], vec![1, 0, 2, 0], vec![0, 2, 0, 0], vec![4, 0, 0, 0]]
    );
}

#[test]
fn two_components_are_refused() {
    let matrix = vec![vec![0, 1, 0, 0], vec![1, 0, 0, 0], vec![0, 0, 0, 1], vec![0, 0, 1, 0]];
    assert_eq!(build_mst(&matrix).unwrap_err(), GraphError::DisconnectedGraph);
    assert_eq!(select_crossing_edges(&matrix).unwrap_err(), GraphError::DisconnectedGraph);
}

#[test]
fn graph_without_edges_is_refused() {
    let matrix = vec![vec![0, 0], vec![0, 0]];
    assert_eq!(build_mst(&matrix).unwrap_err(), GraphError::DisconnectedGraph);
}

#[test]
fn isolated_vertex_is_refused() {
    let matrix = vec![vec![0, 7, 0], vec![7, 0, 0], vec![0, 0, 0]];
    assert_eq!(build_mst(&matrix).unwrap_err(), GraphError::DisconnectedGraph);
}

#[test]
fn single_vertex_has_an_empty_tree() {
    let matrix = vec![vec![0]];
    let tree = build_mst(&matrix).unwrap();
    assert!(tree.edges.is_empty());
    assert_eq!(tree.matrix, vec![vec![0]]);
}

#[test]
fn empty_graph_has_an_empty_tree() {
    let matrix: Vec<Vec<i32>> = Vec::new();
    let tree = build_mst(&matrix).unwrap();
    assert!(tree.edges.is_empty());
    assert!(tree.matrix.is_empty());
    assert!(select_crossing_edges(&matrix).unwrap().is_empty());
}

#[test]
fn two_vertices_take_their_only_edge() {
    let matrix = vec![vec![0, 9], vec![9, 0]];
    let tree = build_mst(&matrix).unwrap();
    assert_eq!(triples(&tree.edges), vec![(0, 1, 9)]);
    assert_eq!(tree.matrix, vec![vec![0, 9], vec![9, 0]]);
}

#[test]
fn only_the_upper_triangle_is_read() {
    let matrix = vec![vec![5, 2, 0], vec![0, 5, 3], vec![8, 0, 5]];
    let tree = build_mst(&matrix).unwrap();
    assert_eq!(triples(&tree.edges), vec![(0, 1, 2), (1, 2, 3)]);
}

#[test]
fn held_edges_come_back_after_an_acceptance() {
    // The lightest edges after the seed do not touch the tree at first.
    let mut matrix = vec![vec![0; 5]; 5];
    let edges = [(0, 1, 1), (2, 3, 2), (3, 4, 3), (1, 2, 10), (0, 4, 20)];
    for (a, b, w) in edges {
        matrix[a][b] = w;
        matrix[b][a] = w;
    }
    let tree = build_mst(&matrix).unwrap();
    assert_eq!(triples(&tree.edges), vec![(0, 1, 1), (1, 2, 10), (2, 3, 2), (3, 4, 3)]);
}

#[test]
fn ties_are_broken_by_source_then_destination() {
    let matrix = vec![vec![0, 4, 4, 4], vec![4, 0, 4, 4], vec![4, 4, 0, 4], vec![4, 4, 4, 0]];
    let tree = build_mst(&matrix).unwrap();
    assert_eq!(triples(&tree.edges), vec![(0, 1, 4), (0, 2, 4), (0, 3, 4)]);
}

#[test]
fn negative_weights_are_ordered_like_any_other() {
    let matrix = vec![vec![0, -5, 2], vec![-5, 0, -1], vec![2, -1, 0]];
    let tree = build_mst(&matrix).unwrap();
    assert_eq!(triples(&tree.edges), vec![(0, 1, -5), (1, 2, -1)]);
}

#[test]
fn tree_has_one_edge_less_than_vertices_and_no_cycle() {
    for n in 2..12 {
        let matrix = ring_with_chords(n);
        let tree = build_mst(&matrix).unwrap();
        assert_eq!(tree.edges.len(), n - 1);
        let mut parent: Vec<usize> = (0..n).collect();
        for e in &tree.edges {
            let a = find(&mut parent, e.src as usize);
            let b = find(&mut parent, e.dst as usize);
            assert_ne!(a, b);
            parent[a] = b;
        }
        let root = find(&mut parent, 0);
        for v in 0..n {
            assert_eq!(find(&mut parent, v), root);
        }
    }
}

#[test]
fn every_accepted_edge_crosses_the_cut() {
    for n in 2..12 {
        let matrix = ring_with_chords(n);
        let edges = select_crossing_edges(&matrix).unwrap();
        let mut visited = vec![false; n];
        visited[edges[0].src as usize] = true;
        visited[edges[0].dst as usize] = true;
        for e in &edges[1..] {
            assert!(visited[e.src as usize] != visited[e.dst as usize]);
            visited[e.src as usize] = true;
            visited[e.dst as usize] = true;
        }
        assert!(visited.iter().all(|v| *v));
    }
}

#[test]
fn every_accepted_edge_is_the_lightest_that_crosses() {
    let n = 9;
    let matrix = ring_with_chords(n);
    let edges = select_crossing_edges(&matrix).unwrap();
    let mut visited = vec![false; n];
    visited[edges[0].src as usize] = true;
    visited[edges[0].dst as usize] = true;
    for e in &edges[1..] {
        for i in 0..n {
            for j in (i + 1)..n {
                if matrix[i][j] != 0 && visited[i] != visited[j] {
                    assert!(e.weight <= matrix[i][j]);
                }
            }
        }
        visited[e.src as usize] = true;
        visited[e.dst as usize] = true;
    }
}

#[test]
fn building_twice_gives_the_same_tree() {
    let matrix = ring_with_chords(10);
    let first = build_mst(&matrix).unwrap();
    let second = build_mst(&matrix).unwrap();
    assert_eq!(triples(&first.edges), triples(&second.edges));
    assert_eq!(first.matrix, second.matrix);
}

#[test]
fn tree_weight_is_minimal_on_a_small_graph() {
    // The spanning trees of the complete graph on four vertices are few enough
    // to try; none is lighter than 1 + 2 + 4.
    let tree = build_mst(&complete_four()).unwrap();
    let total: i32 = tree.edges.iter().map(|e| e.weight).sum();
    assert_eq!(total, 7);
}

#[test]
fn materialize_writes_both_cells_of_each_edge() {
    let edges = vec![Edge { src: 0, dst: 2, weight: 5 }, Edge { src: 1, dst: 2, weight: 7 }];
    assert_eq!(materialize(&edges), vec![vec![0, 0, 5], vec![0, 0, 7], vec![5, 7, 0]]);
}

#[test]
fn materialize_lets_the_later_edge_decide() {
    let edges = vec![Edge { src: 0, dst: 1, weight: 5 }, Edge { src: 1, dst: 0, weight: 7 }];
    assert_eq!(materialize(&edges), vec![vec![0, 7, 0], vec![7, 0, 0], vec![0, 0, 0]]);
}

#[test]
fn materialize_of_no_edges_is_a_single_vertex() {
    assert_eq!(materialize(&Vec::new()), vec![vec![0]]);
}

#[test]
fn ragged_matrix_is_no_graph() {
    assert!(!is_adjacency_matrix(&vec![vec![0, 1], vec![1]]));
    assert!(!is_adjacency_matrix(&vec![vec![0, 1, 2]]));
    assert!(is_adjacency_matrix(&Vec::new()));
    assert!(is_adjacency_matrix(&vec![vec![3]]));
}

#[test]
fn queue_hands_out_the_lightest_edge_first() {
    let mut queue = EdgeQueue::new();
    assert!(queue.is_empty());
    queue.push(Edge { src: 2, dst: 3, weight: 9 });
    queue.push(Edge { src: 0, dst: 1, weight: 4 });
    queue.push(Edge { src: 1, dst: 3, weight: 6 });
    queue.push(Edge { src: 0, dst: 3, weight: 4 });
    assert_eq!(queue.len(), 4);
    let mut out = Vec::new();
    while let Some(e) = queue.pop_min() {
        out.push(e);
    }
    assert_eq!(triples(&out), vec![(0, 1, 4), (0, 3, 4), (1, 3, 6), (2, 3, 9)]);
    assert!(queue.pop_min().is_none());
}

#[test]
fn edges_compare_by_weight_alone() {
    let light = Edge { src: 5, dst: 6, weight: 1 };
    let heavy = Edge { src: 0, dst: 1, weight: 2 };
    let other = Edge { src: 3, dst: 4, weight: 2 };
    assert!(light < heavy);
    assert!(heavy > light);
    assert!(heavy == other);
    assert!(heavy <= other && heavy >= other);
    assert!(light != heavy);
    assert_eq!(heavy.partial_cmp(&other), Some(std::cmp::Ordering::Equal));
    assert!(heavy.comes_before(&other));
    assert!(!other.comes_before(&heavy));
    assert!(light.comes_before(&heavy));
}
