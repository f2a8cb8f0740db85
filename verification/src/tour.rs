//! The approximate tour: the walk of the spanning tree, shortcut into a cycle
//! and priced in the original graph.

use crate::graph::{is_graph, GraphError};
use crate::walk::{all_vertices, get_aprox_path, lemma_walk_unfold, walk};
use std::collections::VecDeque;
use vstd::prelude::*;
use vstd::set_lib::{lemma_int_range, lemma_subset_equality, set_int_range};

verus! {

/// The sum of the matrix cells along the consecutive pairs of a route:
/// `g[route[0]][route[1]] + g[route[1]][route[2]] + ..`, and 0 for a route of
/// fewer than two vertices.
pub open spec fn route_weight(g: Seq<Seq<i32>>, route: Seq<i32>) -> int
    decreases route.len(),
{
    if route.len() <= 1 {
        0
    } else {
        route_weight(g, route.drop_last()) + g[route[route.len() - 2] as int][route[route.len()
            - 1] as int]
    }
}

/// The `i`-th step of the route moves between two vertices that have no edge
/// between them. A step that stays where it is needs no edge.
pub open spec fn is_missing_step(g: Seq<Seq<i32>>, route: Seq<i32>, i: int) -> bool {
    &&& 0 <= i < route.len() - 1
    &&& route[i] != route[i + 1]
    &&& g[route[i] as int][route[i + 1] as int] == 0
}

/// Some step of the route has no edge under it.
pub open spec fn has_missing_step(g: Seq<Seq<i32>>, route: Seq<i32>) -> bool {
    exists|i: int| is_missing_step(g, route, i)
}

/// The list holds `n` vertices of the graph and none of them twice.
pub open spec fn visits_each_once(walked: Seq<i32>, n: nat) -> bool {
    &&& walked.len() == n
    &&& all_vertices(walked, n)
    &&& walked.no_duplicates()
}

/// The cycle that a walk stands for: the walk read backwards, which is the
/// order in which the vertices were first reached, and the root once more to
/// close it.
pub open spec fn closed_tour(walked: Seq<i32>, root: i32) -> Seq<i32> {
    walked.reverse().push(root)
}

/// A tour of a graph with `n` vertices from `root`: `n + 1` entries, the root
/// first and last, and between the two every other vertex exactly once.
pub open spec fn is_tour(route: Seq<i32>, n: nat, root: i32) -> bool {
    &&& route.len() == n + 1
    &&& route[0] == root
    &&& route[n as int] == root
    &&& route.subrange(1, n as int).no_duplicates()
    &&& forall|v: i32|
        #![trigger route.subrange(1, n as int).contains(v)]
        route.subrange(1, n as int).contains(v) <==> (0 <= v < n && v != root)
}

/// What [`approximate_tour`] returns for a tree matrix, the matrix of the
/// original graph and a root.
pub open spec fn tour_outcome(tree: Seq<Seq<i32>>, original: Seq<Seq<i32>>, root: i32) -> Result<
    (Seq<i32>, int),
    GraphError,
> {
    let walked = walk(tree, root, Seq::empty()).0;
    let route = closed_tour(walked, root);
    if !visits_each_once(walked, tree.len()) {
        Err(GraphError::UnreachableVertex)
    } else if has_missing_step(original, route) {
        Err(GraphError::MissingEdge)
    } else {
        Ok((route, route_weight(original, route)))
    }
}

/// The result of [`approximate_tour`] with the route taken by its view.
pub open spec fn tour_view(r: Result<(Vec<i32>, i64), GraphError>) -> Result<
    (Seq<i32>, int),
    GraphError,
> {
    match r {
        Ok((route, total)) => Ok((route@, total as int)),
        Err(e) => Err(e),
    }
}

/// A list of `n` vertices of the graph without a duplicate holds every vertex.
pub proof fn lemma_each_once_covers(walked: Seq<i32>, n: nat, v: i32)
    requires
        visits_each_once(walked, n),
        0 <= v < n,
    ensures
        walked.contains(v),
{
    let wide = Seq::new(walked.len(), |i: int| walked[i] as int);
    let all = set_int_range(0, n as int);
    assert(wide.no_duplicates());
    wide.unique_seq_to_set();
    vstd::seq_lib::seq_to_set_is_finite(wide);
    lemma_int_range(0, n as int);
    assert forall|x: int| wide.to_set().contains(x) implies all.contains(x) by {
        let i = choose|i: int| 0 <= i < wide.len() && wide[i] == x;
        assert(0 <= walked[i] < n);
    }
    lemma_subset_equality(wide.to_set(), all);
    assert(all.contains(v as int));
    assert(wide.contains(v as int));
    let i = choose|i: int| 0 <= i < wide.len() && wide[i] == v as int;
    assert(walked[i] == v);
}

/// A walk that ends at the root and visits each vertex once gives a tour when
/// it is read backwards and closed.
pub proof fn lemma_closed_walk_is_tour(walked: Seq<i32>, n: nat, root: i32)
    requires
        visits_each_once(walked, n),
        n > 0,
        walked[n - 1] == root,
    ensures
        is_tour(closed_tour(walked, root), n, root),
{
    let route = closed_tour(walked, root);
    let inner = route.subrange(1, n as int);
    assert forall|k: int| 0 <= k < inner.len() implies inner[k] == walked[n - 2 - k] by {
        assert(inner[k] == route[k + 1]);
    }
    assert forall|v: i32| #![trigger inner.contains(v)] inner.contains(v) <==> (0 <= v < n && v
        != root) by {
        if inner.contains(v) {
            let k = choose|k: int| 0 <= k < inner.len() && inner[k] == v;
            assert(inner[k] == walked[n - 2 - k]);
        }
        if 0 <= v < n && v != root {
            lemma_each_once_covers(walked, n, v);
            let j = choose|j: int| 0 <= j < walked.len() && walked[j] == v;
            assert(inner[n - 2 - j] == v);
        }
    }
}

/// On success the route is a tour: it has `n + 1` entries, begins and ends at
/// the root, and holds every other vertex exactly once in between.
pub proof fn lemma_tour_shape(tree: Seq<Seq<i32>>, original: Seq<Seq<i32>>, root: i32)
    requires
        is_graph(tree),
        0 <= root < tree.len(),
        tour_outcome(tree, original, root) is Ok,
    ensures
        is_tour(tour_outcome(tree, original, root)->Ok_0.0, tree.len(), root),
{
    lemma_walk_unfold(tree, root, Seq::empty());
    lemma_closed_walk_is_tour(walk(tree, root, Seq::empty()).0, tree.len(), root);
}

/// Prices a route: the sum of the weights that the matrix holds for its
/// consecutive pairs.
///
/// A pair of different vertices whose cell is 0 has no edge, and the route is
/// then refused with [`GraphError::MissingEdge`] rather than priced as if the
/// step were free.
pub fn tour_cost(tour: &Vec<i32>, matrix: &Vec<Vec<i32>>) -> (r: Result<i64, GraphError>)
    requires
        is_graph(matrix.deep_view()),
        all_vertices(tour@, matrix.deep_view().len()),
        tour@.len() <= u32::MAX,
    ensures
        match r {
            Ok(total) => !has_missing_step(matrix.deep_view(), tour@) && total == route_weight(
                matrix.deep_view(),
                tour@,
            ),
            Err(e) => has_missing_step(matrix.deep_view(), tour@) && e == GraphError::MissingEdge,
        },
{
    let ghost g = matrix.deep_view();
    let len = tour.len();
    if len == 0 {
        return Ok(0);
    }
    let mut total: i64 = 0;
    let mut i: usize = 1;
    assert(tour@.take(1).len() == 1);
    while i < len
        invariant
            1 <= i <= len,
            len == tour@.len(),
            len <= u32::MAX,
            g == matrix.deep_view(),
            is_graph(g),
            all_vertices(tour@, g.len()),
            total == route_weight(g, tour@.take(i as int)),
            -0x8000_0000 * (i - 1) <= total <= 0x8000_0000 * (i - 1),
            forall|j: int| 0 <= j < i - 1 ==> !is_missing_step(g, tour@, j),
        decreases len - i,
    {
        let a = tour[i - 1];
        let b = tour[i];
        assert(g[a as int].len() == g.len());
        let w = matrix[a as usize][b as usize];
        assert(w == g[a as int][b as int]);
        if a != b && w == 0 {
            assert(is_missing_step(g, tour@, i - 1));
            return Err(GraphError::MissingEdge);
        }
        proof {
            let longer = tour@.take(i + 1);
            assert(longer.drop_last() =~= tour@.take(i as int));
        }
        total = total + w as i64;
        i += 1;
    }
    assert(tour@.take(len as int) =~= tour@);
    Ok(total)
}

/// Whether a walk of a graph with `n` vertices holds `n` entries and none twice.
fn check_each_once(walked: &VecDeque<i32>, n: usize) -> (ok: bool)
    requires
        all_vertices(walked@, n as nat),
    ensures
        ok == visits_each_once(walked@, n as nat),
{
    if walked.len() != n {
        return false;
    }
    let mut seen: Vec<bool> = Vec::new();
    let mut k: usize = 0;
    while k < n
        invariant
            k <= n,
            seen@.len() == k,
            forall|v: int| 0 <= v < k ==> !seen@[v],
        decreases n - k,
    {
        seen.push(false);
        k += 1;
    }
    let mut i: usize = 0;
    while i < n
        invariant
            i <= n,
            n == walked@.len(),
            seen@.len() == n,
            all_vertices(walked@, n as nat),
            forall|v: int|
                0 <= v < n ==> (#[trigger] seen@[v] <==> exists|j: int|
                    0 <= j < i && walked@[j] == v),
            forall|j: int, k: int| 0 <= j < k < i ==> walked@[j] != walked@[k],
        decreases n - i,
    {
        let v = walked[i] as usize;
        if seen[v] {
            proof {
                let j = choose|j: int| 0 <= j < i && walked@[j] == v;
                assert(walked@[j] == walked@[i as int]);
            }
            return false;
        }
        seen[v] = true;
        i += 1;
    }
    true
}

/// Approximates a tour through every vertex of a graph from its spanning tree.
///
/// The tree is walked depth first from `root`. Read backwards the walk gives
/// the order in which the vertices were first reached; going through them in
/// that order and back to the root skips every return along a tree edge. The
/// route is priced in the original graph.
///
/// The walk must visit every vertex exactly once, which it does on a spanning
/// tree; otherwise the result is [`GraphError::UnreachableVertex`]. Where two
/// vertices that follow each other in the route have no edge between them in
/// the original graph, the result is [`GraphError::MissingEdge`].
pub fn approximate_tour(
    tree_matrix: &Vec<Vec<i32>>,
    original_matrix: &Vec<Vec<i32>>,
    root: i32,
) -> (r: Result<(Vec<i32>, i64), GraphError>)
    requires
        is_graph(tree_matrix.deep_view()),
        is_graph(original_matrix.deep_view()),
        tree_matrix.deep_view().len() == original_matrix.deep_view().len(),
        0 <= root < tree_matrix.deep_view().len(),
    ensures
        tour_view(r) == tour_outcome(tree_matrix.deep_view(), original_matrix.deep_view(), root),
        r matches Ok((route, total)) ==> is_tour(route@, tree_matrix.deep_view().len(), root)
            && total == route_weight(original_matrix.deep_view(), route@),
{
    let ghost tree = tree_matrix.deep_view();
    let ghost original = original_matrix.deep_view();
    let n = tree_matrix.len();
    let mut visiteds: Vec<i32> = Vec::new();
    let walked = get_aprox_path(root, tree_matrix, &mut visiteds);
    proof {
        lemma_walk_unfold(tree, root, Seq::empty());
    }
    if !check_each_once(&walked, n) {
        return Err(GraphError::UnreachableVertex);
    }
    let mut route: Vec<i32> = Vec::new();
    let mut i: usize = n;
    while i > 0
        invariant
            i <= n,
            n == walked@.len(),
            route@.len() == n - i,
            forall|k: int| 0 <= k < n - i ==> route@[k] == walked@[n - 1 - k],
        decreases i,
    {
        i -= 1;
        route.push(walked[i]);
    }
    route.push(root);
    proof {
        assert(route@ =~= closed_tour(walked@, root));
        lemma_closed_walk_is_tour(walked@, n as nat, root);
        assert forall|k: int| 0 <= k < route@.len() implies 0 <= #[trigger] route@[k] < n by {
            if k < n {
                assert(route@[k] == walked@[n - 1 - k]);
            }
        }
    }
    match tour_cost(&route, original_matrix) {
        Ok(total) => Ok((route, total)),
        Err(e) => Err(e),
    }
}

} // verus!
