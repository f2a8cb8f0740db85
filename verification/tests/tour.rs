use mst_tour::graph::GraphError;
use mst_tour::mst::build_mst;
use mst_tour::tour::{approximate_tour, tour_cost};
use mst_tour::walk::{get_all_kids, get_aprox_path};
use std::collections::VecDeque;

fn complete_four() -> Vec<Vec<i32>> {
    vec![vec![0, 1, 3, 4], vec![1, 0, 2, 5], vec![3, 2, 0, 6], vec![4, 5, 6, 0]]
}

fn complete(n: usize) -> Vec<Vec<i32>> {
    let mut m = vec![vec![0; n]; n];
    let mut w = 1;
    for i in 0..n {
        for j in (i + 1)..n {
            let weight = ((w * 53) % 97) + 1 + w * 97;
            m[i][j] = weight;
            m[j][i] = weight;
            w += 1;
        }
    }
    m
}

#[test]
fn tour_of_the_complete_graph_of_four() {
    let matrix = complete_four();
    let tree = build_mst(&matrix).unwrap();
    let (tour, total) = approximate_tour(&tree.matrix, &matrix, 0).unwrap();
    assert_eq!(tour, vec![0, 3, 1, 2, 0]);
    assert_eq!(total, 4 + 5 + 2 + 3);
    assert_eq!(tour.len(), 5);
    let mut inner = tour[..4].to_vec();
    inner.sort();
    assert_eq!(inner, vec![0, 1, 2, 3]);
}

#[test]
fn single_vertex_tour_stays_at_the_root() {
    let matrix = vec![vec![0]];
    let tree = build_mst(&matrix).unwrap();
    assert_eq!(tree.edges.len(), 0);
    let (tour, total) = approximate_tour(&tree.matrix, &matrix, 0).unwrap();
    assert_eq!(tour, vec![0, 0]);
    assert_eq!(total, 0);
}

#[test]
fn tour_starts_and_ends_at_the_root_and_visits_all() {
    for n in 1..10 {
        let matrix = complete(n);
        let tree = build_mst(&matrix).unwrap();
        for root in 0..n {
            let (tour, _) = approximate_tour(&tree.matrix, &matrix, root as i32).unwrap();
            assert_eq!(tour.len(), n + 1);
            assert_eq!(tour[0], root as i32);
            assert_eq!(tour[n], root as i32);
            let mut inner = tour[1..n].to_vec();
            inner.sort();
            let expected: Vec<i32> = (0..n as i32).filter(|v| *v != root as i32).collect();
            assert_eq!(inner, expected);
        }
    }
}

#[test]
fn total_is_the_sum_over_the_consecutive_pairs() {
    let matrix = complete(8);
    let tree = build_mst(&matrix).unwrap();
    let (tour, total) = approximate_tour(&tree.matrix, &matrix, 0).unwrap();
    let mut sum: i64 = 0;
    for i in 0..tour.len() - 1 {
        sum += matrix[tour[i] as usize][tour[i + 1] as usize] as i64;
    }
    assert_eq!(total, sum);
    assert_eq!(tour_cost(&tour, &matrix), Ok(sum));
}

#[test]
fn tour_from_another_root() {
    let matrix = complete_four();
    let tree = build_mst(&matrix).unwrap();
    let (tour, total) = approximate_tour(&tree.matrix, &matrix, 2).unwrap();
    assert_eq!(tour, vec![2, 1, 0, 3, 2]);
    assert_eq!(total, 2 + 1 + 4 + 6);
}

#[test]
fn shortcut_without_an_edge_is_reported() {
    // A path 0 - 1 - 2: going back from 2 to 0 needs an edge that is not there.
    let matrix = vec![vec![0, 1, 0], vec![1, 0, 2], vec![0, 2, 0]];
    let tree = build_mst(&matrix).unwrap();
    assert_eq!(approximate_tour(&tree.matrix, &matrix, 0), Err(GraphError::MissingEdge));
}

#[test]
fn tree_that_misses_a_vertex_is_reported() {
    let original = complete(3);
    let tree = vec![vec![0, 1, 0], vec![1, 0, 0], vec![0, 0, 0]];
    assert_eq!(approximate_tour(&tree, &original, 0), Err(GraphError::UnreachableVertex));
}

#[test]
fn matrix_with_a_cycle_is_no_tree() {
    let original = complete(3);
    let triangle = vec![vec![0, 1, 1], vec![1, 0, 1], vec![1, 1, 0]];
    assert_eq!(approximate_tour(&triangle, &original, 0), Err(GraphError::UnreachableVertex));
}

#[test]
fn unreachable_vertex_comes_before_missing_edge() {
    let original = vec![vec![0, 0, 0], vec![0, 0, 0], vec![0, 0, 0]];
    let tree = vec![vec![0, 1, 0], vec![1, 0, 0], vec![0, 0, 0]];
    assert_eq!(approximate_tour(&tree, &original, 0), Err(GraphError::UnreachableVertex));
}

#[test]
fn cost_of_short_routes_is_zero() {
    let matrix = complete_four();
    assert_eq!(tour_cost(&Vec::new(), &matrix), Ok(0));
    assert_eq!(tour_cost(&vec![2], &matrix), Ok(0));
}

#[test]
fn cost_adds_the_cells_in_the_direction_of_travel() {
    let matrix = vec![vec![0, 10, 20], vec![1, 0, 30], vec![2, 3, 0]];
    assert_eq!(tour_cost(&vec![0, 1, 2, 0], &matrix), Ok(10 + 30 + 2));
    assert_eq!(tour_cost(&vec![0, 2, 1, 0], &matrix), Ok(20 + 3 + 1));
}

#[test]
fn cost_refuses_a_step_without_an_edge() {
    let matrix = vec![vec![0, 10, 0], vec![10, 0, 30], vec![0, 30, 0]];
    assert_eq!(tour_cost(&vec![0, 1, 2, 0], &matrix), Err(GraphError::MissingEdge));
    assert_eq!(tour_cost(&vec![0, 1, 2], &matrix), Ok(40));
}

#[test]
fn cost_of_staying_in_place_is_the_diagonal_cell() {
    let matrix = vec![vec![0, 10], vec![10, 7]];
    assert_eq!(tour_cost(&vec![0, 0], &matrix), Ok(0));
    assert_eq!(tour_cost(&vec![1, 1, 0], &matrix), Ok(17));
}

#[test]
fn cost_does_not_overflow_an_i32() {
    let big = i32::MAX;
    let matrix = vec![vec![0, big], vec![big, 0]];
    assert_eq!(tour_cost(&vec![0, 1, 0, 1], &matrix), Ok(3 * big as i64));
}

#[test]
fn kids_are_the_unvisited_neighbours_in_ascending_order() {
    let matrix = vec![vec![0, 1, 0, 4], vec![1, 0, 2, 0], vec![0, 2, 0, 0], vec![4, 0, 0, 0]];
    let mut visiteds = vec![0];
    assert_eq!(get_all_kids(0, &matrix, &mut visiteds), VecDeque::from(vec![1, 3]));
    assert_eq!(visiteds, vec![0]);
    let mut visiteds = vec![0, 1];
    assert_eq!(get_all_kids(1, &matrix, &mut visiteds), VecDeque::from(vec![2]));
    let mut visiteds = vec![0, 3];
    assert_eq!(get_all_kids(0, &matrix, &mut visiteds), VecDeque::from(vec![1]));
    let mut visiteds = Vec::new();
    assert_eq!(get_all_kids(2, &matrix, &mut visiteds), VecDeque::from(vec![1]));
    assert_eq!(get_all_kids(3, &matrix, &mut vec![0, 7, -1]), VecDeque::new());
}

#[test]
fn walk_lists_each_vertex_after_what_was_reached_through_it() {
    let matrix = vec![vec![0, 1, 0, 4], vec![1, 0, 2, 0], vec![0, 2, 0, 0], vec![4, 0, 0, 0]];
    let mut visiteds = Vec::new();
    let path = get_aprox_path(0, &matrix, &mut visiteds);
    assert_eq!(path, VecDeque::from(vec![2, 1, 3, 0]));
    assert_eq!(visiteds, vec![0, 1, 2, 3]);
}

#[test]
fn walk_skips_what_was_visited_before_it_began() {
    let matrix = vec![vec![0, 1, 0, 4], vec![1, 0, 2, 0], vec![0, 2, 0, 0], vec![4, 0, 0, 0]];
    let mut visiteds = vec![1];
    let path = get_aprox_path(0, &matrix, &mut visiteds);
    assert_eq!(path, VecDeque::from(vec![3, 0]));
    assert_eq!(visiteds, vec![1, 0, 3]);
}

#[test]
fn walk_of_a_cycle_lists_a_vertex_twice() {
    let triangle = vec![vec![0, 1, 1], vec![1, 0, 1], vec![1, 1, 0]];
    let mut visiteds = Vec::new();
    let path = get_aprox_path(0, &triangle, &mut visiteds);
    assert_eq!(path, VecDeque::from(vec![2, 1, 2, 0]));
    assert_eq!(visiteds, vec![0, 1, 2, 2]);
}

#[test]
fn walk_of_a_long_path_goes_all_the_way_down() {
    let n = 200;
    let mut matrix = vec![vec![0; n]; n];
    for i in 0..n - 1 {
        matrix[i][i + 1] = 1;
        matrix[i + 1][i] = 1;
    }
    let mut visiteds = Vec::new();
    let path = get_aprox_path(0, &matrix, &mut visiteds);
    let expected: Vec<i32> = (0..n as i32).rev().collect();
    assert_eq!(path, VecDeque::from(expected));
}
