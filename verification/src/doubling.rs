//! Tree doubling from end to end: from a graph to an approximate tour of it.

use crate::edge::Edge;
use crate::forest::lemma_tree_walk_visits_each_once;
use crate::graph::{connected, is_graph, GraphError};
use crate::minimum::is_minimum;
use crate::mst::{build_mst, is_selection, tree_cells, SpanningTree};
use crate::tour::{approximate_tour, is_tour, route_weight, tour_outcome};
use vstd::prelude::*;

verus! {

/// A spanning tree of a graph together with the tour that its walk gives.
#[derive(Debug)]
pub struct TreeTour {
    pub tree: SpanningTree,
    pub tour: Vec<i32>,
    pub total_weight: i64,
}

/// Builds the minimum spanning tree of a graph and from it the approximate
/// tour that starts and ends at vertex 0.
///
/// A graph that is not connected has no spanning tree and gives
/// [`GraphError::DisconnectedGraph`]. On a connected graph the walk of the
/// tree reaches every vertex, so the one thing that can still fail is a step
/// of the tour between two vertices that the graph does not join, which gives
/// [`GraphError::MissingEdge`]; on a complete graph there is no such step.
pub fn tree_doubling_tour(matrix: &Vec<Vec<i32>>) -> (r: Result<TreeTour, GraphError>)
    requires
        is_graph(matrix.deep_view()),
        matrix.deep_view().len() > 0,
    ensures
        match r {
            Ok(found) => {
                &&& is_selection(matrix.deep_view(), Ok(found.tree.edges@))
                &&& is_minimum(matrix.deep_view(), found.tree.edges@)
                &&& found.tree.matrix.deep_view() == tree_cells(
                    found.tree.edges@,
                    matrix.deep_view().len(),
                )
                &&& tour_outcome(found.tree.matrix.deep_view(), matrix.deep_view(), 0) == Ok::<
                    (Seq<i32>, int),
                    GraphError,
                >((found.tour@, found.total_weight as int))
                &&& is_tour(found.tour@, matrix.deep_view().len(), 0)
                &&& found.total_weight == route_weight(matrix.deep_view(), found.tour@)
            },
            Err(e) => match e {
                GraphError::DisconnectedGraph => !connected(matrix.deep_view()),
                GraphError::MissingEdge => exists|run: Seq<Edge>|
                    {
                        &&& #[trigger] is_selection(matrix.deep_view(), Ok(run))
                        &&& tour_outcome(
                            tree_cells(run, matrix.deep_view().len()),
                            matrix.deep_view(),
                            0,
                        ) == Err::<(Seq<i32>, int), GraphError>(GraphError::MissingEdge)
                    },
                GraphError::UnreachableVertex => false,
            },
        },
{
    let ghost g = matrix.deep_view();
    let tree = match build_mst(matrix) {
        Ok(tree) => tree,
        Err(e) => {
            return Err(e);
        },
    };
    proof {
        lemma_tree_walk_visits_each_once(g, tree.edges@, 0);
        assert(is_selection(g, Ok(tree.edges@)));
    }
    match approximate_tour(&tree.matrix, matrix, 0) {
        Ok((tour, total)) => Ok(TreeTour { tree, tour, total_weight: total }),
        Err(e) => Err(e),
    }
}

} // verus!
