use mst_tour::doubling::tree_doubling_tour;
use mst_tour::graph::GraphError;

#[test]
fn doubling_on_the_complete_graph_of_four() {
    let matrix = vec![vec![0, 1, 3, 4], vec![1, 0, 2, 5], vec![3, 2, 0, 6], vec![4, 5, 6, 0]];
    let found = tree_doubling_tour(&matrix).unwrap();
    let edges: Vec<(u32, u32, i32)> =
        found.tree.edges.iter().map(|e| (e.src, e.dst, e.weight)).collect();
    assert_eq!(edges, vec![(0, 1, 1), (1, 2, 2), (0, 3, 4)]);
    assert_eq!(found.tour, vec![0, 3, 1, 2, 0]);
    assert_eq!(found.total_weight, 14);
}

#[test]
fn doubling_on_a_single_vertex() {
    let found = tree_doubling_tour(&vec![vec![0]]).unwrap();
    assert!(found.tree.edges.is_empty());
    assert_eq!(found.tour, vec![0, 0]);
    assert_eq!(found.total_weight, 0);
}

#[test]
fn doubling_refuses_a_disconnected_graph() {
    let matrix = vec![vec![0, 1, 0, 0], vec![1, 0, 0, 0], vec![0, 0, 0, 1], vec![0, 0, 1, 0]];
    assert_eq!(tree_doubling_tour(&matrix).unwrap_err(), GraphError::DisconnectedGraph);
}

#[test]
fn doubling_reports_a_shortcut_without_an_edge() {
    // A star has a tree but no edge between its leaves.
    let matrix = vec![vec![0, 1, 2, 3], vec![1, 0, 0, 0], vec![2, 0, 0, 0], vec![3, 0, 0, 0]];
    assert_eq!(tree_doubling_tour(&matrix).unwrap_err(), GraphError::MissingEdge);
}

#[test]
fn doubling_never_misses_a_vertex_of_a_connected_graph() {
    // Sparse connected graphs: a path with one chord each.
    for n in 2..12usize {
        let mut matrix = vec![vec![0; n]; n];
        for i in 0..n - 1 {
            matrix[i][i + 1] = (i as i32 % 4) + 1;
            matrix[i + 1][i] = (i as i32 % 4) + 1;
        }
        matrix[0][n - 1] = 9;
        matrix[n - 1][0] = 9;
        match tree_doubling_tour(&matrix) {
            Ok(found) => {
                assert_eq!(found.tour.len(), n + 1);
                assert_eq!(found.tree.edges.len(), n - 1);
            }
            Err(e) => assert_eq!(e, GraphError::MissingEdge),
        }
    }
}

#[test]
fn doubling_on_two_vertices_goes_there_and_back() {
    let found = tree_doubling_tour(&vec![vec![0, 6], vec![6, 0]]).unwrap();
    assert_eq!(found.tour, vec![0, 1, 0]);
    assert_eq!(found.total_weight, 12);
}
