//! Minimum spanning trees by crossing-edge selection.
//!
//! The tree starts from the least edge of the graph. From then on the least
//! edge that crosses from the tree to the rest of the graph is added, until the
//! tree spans the graph or no edge crosses any more.

use crate::edge::Edge;
use crate::graph::{
    adjacent, connected, edge_between, is_edge, is_graph, is_path, is_step, joined,
    lemma_adjacent_is_edge, lemma_joined_by_step, lemma_joined_in_larger, lemma_joined_reflexive,
    lemma_joined_symmetric, lemma_joined_transitive, lemma_path_leaves, GraphError,
};
use crate::minimum::{is_minimum, lemma_run_is_minimum};
use crate::queue::EdgeQueue;
use vstd::prelude::*;
use vstd::set_lib::{lemma_int_range, lemma_len_subset, lemma_subset_equality, set_int_range};

verus! {

/// The vertices that a sequence of edges touches: the tree's vertices, once
/// these edges have been accepted.
pub open spec fn visited_set(edges: Seq<Edge>) -> Set<int>
    decreases edges.len(),
{
    if edges.len() == 0 {
        Set::empty()
    } else {
        visited_set(edges.drop_last()).insert(edges.last().src as int).insert(
            edges.last().dst as int,
        )
    }
}

/// An edge crosses a set of vertices when exactly one of its endpoints lies in it.
pub open spec fn crosses(e: Edge, inside: Set<int>) -> bool {
    inside.contains(e.src as int) != inside.contains(e.dst as int)
}

/// The edges that may be accepted after `before`: any edge of the graph while
/// the tree is empty, and afterwards the edges that cross from the tree to the
/// rest of the graph.
pub open spec fn is_candidate(g: Seq<Seq<i32>>, before: Seq<Edge>, x: Edge) -> bool {
    is_edge(g, x) && (before.len() == 0 || crosses(x, visited_set(before)))
}

/// `e` is the edge to accept after `before`: the candidate that precedes all
/// candidates.
pub open spec fn is_next(g: Seq<Seq<i32>>, before: Seq<Edge>, e: Edge) -> bool {
    &&& is_candidate(g, before, e)
    &&& forall|x: Edge| #[trigger] is_candidate(g, before, x) ==> e.precedes(x)
}

/// The edges were accepted in this order by crossing-edge selection: each one
/// was the least candidate when its turn came.
pub open spec fn is_prim_run(g: Seq<Seq<i32>>, edges: Seq<Edge>) -> bool {
    forall|k: int| 0 <= k < edges.len() ==> #[trigger] is_next(g, edges.take(k), edges[k])
}

/// The number of edges in a tree that spans `n` vertices.
pub open spec fn edges_needed(n: nat) -> nat {
    if n == 0 {
        0
    } else {
        (n - 1) as nat
    }
}

/// What selection owes for a graph: the complete run if the graph is connected,
/// and the report that it is not otherwise.
pub open spec fn is_selection(g: Seq<Seq<i32>>, outcome: Result<Seq<Edge>, GraphError>) -> bool {
    match outcome {
        Ok(edges) => {
            &&& connected(g)
            &&& is_prim_run(g, edges)
            &&& edges.len() == edges_needed(g.len())
        },
        Err(e) => !connected(g) && e == GraphError::DisconnectedGraph,
    }
}

/// The weight that a list of edges gives to the pair `{i, j}`: that of the last
/// edge in the list between the two, and 0 where there is none.
pub open spec fn tree_weight(edges: Seq<Edge>, i: int, j: int) -> i32
    decreases edges.len(),
{
    if edges.len() == 0 {
        0
    } else if edges.last().links(i, j) {
        edges.last().weight
    } else {
        tree_weight(edges.drop_last(), i, j)
    }
}

/// The symmetric `n` by `n` matrix of the graph that has these edges and no others.
pub open spec fn tree_cells(edges: Seq<Edge>, n: nat) -> Seq<Seq<i32>> {
    Seq::new(n, |i: int| Seq::new(n, |j: int| tree_weight(edges, i, j)))
}

/// The `k`-th edge runs between two vertices that the edges before it join already.
pub open spec fn closes_cycle(edges: Seq<Edge>, n: nat, k: int) -> bool {
    joined(tree_cells(edges.take(k), n), edges[k].src as int, edges[k].dst as int)
}

/// The edges form a tree on the vertices `0..n`: there is one edge less than
/// there are vertices, the edges join every vertex to every other, and taken in
/// their order none closes a cycle.
pub open spec fn is_spanning_tree(edges: Seq<Edge>, n: nat) -> bool {
    &&& edges.len() == edges_needed(n)
    &&& connected(tree_cells(edges, n))
    &&& forall|k: int| 0 <= k < edges.len() ==> !#[trigger] closes_cycle(edges, n, k)
}

/// Accepting one more edge adds its two endpoints to the visited vertices.
pub proof fn lemma_visited_push(edges: Seq<Edge>, e: Edge)
    ensures
        visited_set(edges.push(e)) == visited_set(edges).insert(e.src as int).insert(e.dst as int),
{
    assert(edges.push(e).drop_last() =~= edges);
}

/// A vertex is visited when one of the edges touches it.
pub proof fn lemma_visited_char(edges: Seq<Edge>, v: int)
    ensures
        visited_set(edges).contains(v) <==> exists|k: int|
            0 <= k < edges.len() && #[trigger] edges[k].touches(v),
    decreases edges.len(),
{
    if edges.len() > 0 {
        let rest = edges.drop_last();
        lemma_visited_char(rest, v);
        if visited_set(edges).contains(v) {
            if edges.last().touches(v) {
                assert(edges[edges.len() - 1].touches(v));
            } else {
                let k = choose|k: int| 0 <= k < rest.len() && #[trigger] rest[k].touches(v);
                assert(edges[k].touches(v));
            }
        }
        if exists|k: int| 0 <= k < edges.len() && #[trigger] edges[k].touches(v) {
            let k = choose|k: int| 0 <= k < edges.len() && #[trigger] edges[k].touches(v);
            if k < edges.len() - 1 {
                assert(rest[k].touches(v));
            }
        }
    }
}

/// Every edge of a run is an edge of the graph.
pub proof fn lemma_run_edges(g: Seq<Seq<i32>>, edges: Seq<Edge>, k: int)
    requires
        is_prim_run(g, edges),
        0 <= k < edges.len(),
    ensures
        is_edge(g, edges[k]),
        k > 0 ==> crosses(edges[k], visited_set(edges.take(k))),
{
    assert(is_next(g, edges.take(k), edges[k]));
}

/// A prefix of a run is a run.
pub proof fn lemma_run_prefix(g: Seq<Seq<i32>>, edges: Seq<Edge>, k: int)
    requires
        is_prim_run(g, edges),
        0 <= k <= edges.len(),
    ensures
        is_prim_run(g, edges.take(k)),
{
    let p = edges.take(k);
    assert forall|j: int| 0 <= j < p.len() implies #[trigger] is_next(g, p.take(j), p[j]) by {
        assert(p.take(j) =~= edges.take(j));
        assert(is_next(g, edges.take(j), edges[j]));
    }
}

/// A run followed by the edge that is next after it is a run.
pub proof fn lemma_run_extend(g: Seq<Seq<i32>>, edges: Seq<Edge>, e: Edge)
    requires
        is_prim_run(g, edges),
        is_next(g, edges, e),
    ensures
        is_prim_run(g, edges.push(e)),
{
    let longer = edges.push(e);
    assert forall|k: int| 0 <= k < longer.len() implies #[trigger] is_next(
        g,
        longer.take(k),
        longer[k],
    ) by {
        if k < edges.len() {
            assert(longer.take(k) =~= edges.take(k));
            assert(is_next(g, edges.take(k), edges[k]));
        } else {
            assert(longer.take(k) =~= edges);
        }
    }
}

/// After `k` edges of a run the tree has `k + 1` vertices.
pub proof fn lemma_run_visited_len(g: Seq<Seq<i32>>, edges: Seq<Edge>, k: int)
    requires
        is_prim_run(g, edges),
        1 <= k <= edges.len(),
    ensures
        visited_set(edges.take(k)).finite(),
        visited_set(edges.take(k)).len() == k + 1,
    decreases k,
{
    let before = edges.take(k - 1);
    let e = edges[k - 1];
    assert(edges.take(k) =~= before.push(e));
    lemma_visited_push(before, e);
    lemma_run_edges(g, edges, k - 1);
    if k > 1 {
        lemma_run_visited_len(g, edges, k - 1);
    }
}

/// Two runs on one graph agree on their first `k` edges, for as many edges as
/// both have.
pub proof fn lemma_run_unique(g: Seq<Seq<i32>>, a: Seq<Edge>, b: Seq<Edge>, k: int)
    requires
        is_prim_run(g, a),
        is_prim_run(g, b),
        0 <= k <= a.len(),
        k <= b.len(),
    ensures
        a.take(k) == b.take(k),
    decreases k,
{
    if k == 0 {
        assert(a.take(0) =~= b.take(0));
    } else {
        lemma_run_unique(g, a, b, k - 1);
        assert(is_next(g, a.take(k - 1), a[k - 1]));
        assert(is_next(g, b.take(k - 1), b[k - 1]));
        assert(is_candidate(g, a.take(k - 1), b[k - 1]));
        assert(is_candidate(g, b.take(k - 1), a[k - 1]));
        crate::edge::lemma_precedes_total_order(a[k - 1], b[k - 1], a[k - 1]);
        assert(a.take(k) =~= a.take(k - 1).push(a[k - 1]));
        assert(b.take(k) =~= b.take(k - 1).push(b[k - 1]));
    }
}

/// A finite set of fewer than `n` integers misses one of `0..n`.
proof fn lemma_vertex_outside(inside: Set<int>, n: nat) -> (b: int)
    requires
        inside.finite(),
        inside.len() < n,
    ensures
        0 <= b < n,
        !inside.contains(b),
{
    let all = set_int_range(0, n as int);
    lemma_int_range(0, n as int);
    if all.subset_of(inside) {
        lemma_len_subset(all, inside);
    }
    let b = choose|b: int| all.contains(b) && !inside.contains(b);
    b
}

/// In a connected graph an edge crosses every set of vertices that holds some
/// vertex and lacks another. The result is such an edge.
pub proof fn lemma_connected_has_crossing(
    g: Seq<Seq<i32>>,
    inside: Set<int>,
    a: int,
    b: int,
) -> (e: Edge)
    requires
        is_graph(g),
        connected(g),
        0 <= a < g.len(),
        0 <= b < g.len(),
        inside.contains(a),
        !inside.contains(b),
    ensures
        is_edge(g, e),
        crosses(e, inside),
{
    assert(joined(g, a, b));
    let p = choose|p: Seq<int>| #[trigger] is_path(g, p) && p[0] == a && p[p.len() - 1] == b;
    let i = lemma_path_leaves(g, p, inside, 0);
    lemma_adjacent_is_edge(g, p[i], p[i + 1]);
    edge_between(g, p[i], p[i + 1])
}

/// The cell for `{i, j}` is nonzero when one of the edges runs between the two,
/// and the cells for `{i, j}` and `{j, i}` agree.
pub proof fn lemma_tree_weight_char(edges: Seq<Edge>, i: int, j: int)
    requires
        forall|k: int| 0 <= k < edges.len() ==> (#[trigger] edges[k]).weight != 0,
    ensures
        tree_weight(edges, i, j) != 0 <==> exists|k: int|
            0 <= k < edges.len() && #[trigger] edges[k].links(i, j),
        tree_weight(edges, i, j) == tree_weight(edges, j, i),
    decreases edges.len(),
{
    if edges.len() > 0 {
        let rest = edges.drop_last();
        assert forall|k: int| 0 <= k < rest.len() implies (#[trigger] rest[k]).weight != 0 by {
            assert(edges[k].weight != 0);
        }
        lemma_tree_weight_char(rest, i, j);
        assert(edges[edges.len() - 1].weight != 0);
        if tree_weight(edges, i, j) != 0 {
            if edges.last().links(i, j) {
                assert(edges[edges.len() - 1].links(i, j));
            } else {
                let k = choose|k: int| 0 <= k < rest.len() && #[trigger] rest[k].links(i, j);
                assert(edges[k].links(i, j));
            }
        }
        if exists|k: int| 0 <= k < edges.len() && #[trigger] edges[k].links(i, j) {
            let k = choose|k: int| 0 <= k < edges.len() && #[trigger] edges[k].links(i, j);
            if k < edges.len() - 1 {
                assert(rest[k].links(i, j));
            }
        }
    }
}

/// Two vertices are adjacent in the matrix of a list of edges when one of the
/// edges runs between them.
pub proof fn lemma_tree_adjacent(edges: Seq<Edge>, n: nat, a: int, b: int)
    requires
        forall|k: int| 0 <= k < edges.len() ==> (#[trigger] edges[k]).weight != 0,
    ensures
        adjacent(tree_cells(edges, n), a, b) <==> {
            &&& 0 <= a < n
            &&& 0 <= b < n
            &&& a != b
            &&& exists|k: int| 0 <= k < edges.len() && #[trigger] edges[k].links(a, b)
        },
{
    lemma_tree_weight_char(edges, a, b);
    lemma_tree_weight_char(edges, b, a);
    if exists|k: int| 0 <= k < edges.len() && #[trigger] edges[k].links(a, b) {
        let k = choose|k: int| 0 <= k < edges.len() && #[trigger] edges[k].links(a, b);
        assert(edges[k].links(b, a));
    }
    if exists|k: int| 0 <= k < edges.len() && #[trigger] edges[k].links(b, a) {
        let k = choose|k: int| 0 <= k < edges.len() && #[trigger] edges[k].links(b, a);
        assert(edges[k].links(a, b));
    }
}

/// The edges of a run are edges of the graph, and their weights are nonzero.
pub proof fn lemma_run_weights(g: Seq<Seq<i32>>, edges: Seq<Edge>)
    requires
        is_prim_run(g, edges),
    ensures
        forall|k: int| 0 <= k < edges.len() ==> (#[trigger] edges[k]).weight != 0,
        forall|k: int| 0 <= k < edges.len() ==> is_edge(g, #[trigger] edges[k]),
{
    assert forall|k: int| 0 <= k < edges.len() implies is_edge(g, #[trigger] edges[k]) by {
        lemma_run_edges(g, edges, k);
    }
}

/// Every vertex that a run has visited is joined to the run's first vertex by
/// edges of the run.
proof fn lemma_visited_joined(g: Seq<Seq<i32>>, edges: Seq<Edge>, k: int, v: int)
    requires
        is_graph(g),
        is_prim_run(g, edges),
        1 <= k <= edges.len(),
        visited_set(edges.take(k)).contains(v),
    ensures
        joined(tree_cells(edges, g.len()), v, edges[0].src as int),
    decreases k,
{
    let n = g.len();
    let m = tree_cells(edges, n);
    let root = edges[0].src as int;
    let before = edges.take(k - 1);
    let e = edges[k - 1];
    assert(edges.take(k) =~= before.push(e));
    lemma_visited_push(before, e);
    lemma_run_edges(g, edges, k - 1);
    lemma_run_weights(g, edges);
    if k > 1 && visited_set(before).contains(v) {
        lemma_visited_joined(g, edges, k - 1, v);
    } else {
        let other = if v == e.src {
            e.dst as int
        } else {
            e.src as int
        };
        assert(edges[k - 1].links(v, other));
        lemma_tree_adjacent(edges, n, v, other);
        if k == 1 {
            lemma_joined_reflexive(m, root);
            if v != root {
                lemma_joined_by_step(m, v, root, root);
            }
        } else {
            lemma_visited_joined(g, edges, k - 1, other);
            lemma_joined_by_step(m, v, other, root);
        }
    }
}

/// No edge of a run closes a cycle with the edges before it.
proof fn lemma_run_acyclic(g: Seq<Seq<i32>>, edges: Seq<Edge>, k: int)
    requires
        is_graph(g),
        is_prim_run(g, edges),
        0 <= k < edges.len(),
    ensures
        !closes_cycle(edges, g.len(), k),
{
    let n = g.len();
    let before = edges.take(k);
    let forest = tree_cells(before, n);
    let e = edges[k];
    lemma_run_edges(g, edges, k);
    lemma_run_prefix(g, edges, k);
    lemma_run_weights(g, before);
    if joined(forest, e.src as int, e.dst as int) {
        let p = choose|p: Seq<int>| #[trigger]
            is_path(forest, p) && p[0] == e.src as int && p[p.len() - 1] == e.dst as int;
        let last = p.len() - 2;
        assert(is_step(forest, p, 0));
        assert(is_step(forest, p, last));
        lemma_tree_adjacent(before, n, p[0], p[1]);
        lemma_tree_adjacent(before, n, p[last], p[last + 1]);
        let i = choose|i: int| 0 <= i < before.len() && #[trigger] before[i].links(p[0], p[1]);
        let j = choose|j: int|
            0 <= j < before.len() && #[trigger] before[j].links(p[last], p[last + 1]);
        assert(before[i].touches(e.src as int));
        assert(before[j].touches(e.dst as int));
        lemma_visited_char(before, e.src as int);
        lemma_visited_char(before, e.dst as int);
        assert(false);
    }
}

/// A complete run is a spanning tree, and a graph that has one is connected.
pub proof fn lemma_run_is_spanning_tree(g: Seq<Seq<i32>>, edges: Seq<Edge>)
    requires
        is_graph(g),
        is_prim_run(g, edges),
        edges.len() == edges_needed(g.len()),
    ensures
        is_spanning_tree(edges, g.len()),
        connected(g),
{
    let n = g.len();
    let m = tree_cells(edges, n);
    lemma_run_weights(g, edges);
    assert forall|k: int| 0 <= k < edges.len() implies !#[trigger] closes_cycle(edges, n, k) by {
        lemma_run_acyclic(g, edges, k);
    }
    assert forall|a: int, b: int| 0 <= a < n && 0 <= b < n implies #[trigger] joined(m, a, b) by {
        if n == 1 {
            lemma_joined_reflexive(m, a);
        } else {
            let all = set_int_range(0, n as int);
            let seen = visited_set(edges);
            let root = edges[0].src as int;
            assert(edges.take(edges.len() as int) =~= edges);
            lemma_run_visited_len(g, edges, edges.len() as int);
            lemma_int_range(0, n as int);
            assert forall|v: int| seen.contains(v) implies all.contains(v) by {
                lemma_visited_char(edges, v);
                let k = choose|k: int| 0 <= k < edges.len() && #[trigger] edges[k].touches(v);
                assert(is_edge(g, edges[k]));
            }
            lemma_subset_equality(seen, all);
            assert(all.contains(a) && all.contains(b));
            lemma_visited_joined(g, edges, edges.len() as int, a);
            lemma_visited_joined(g, edges, edges.len() as int, b);
            lemma_joined_symmetric(m, b, root);
            lemma_joined_transitive(m, a, root, b);
        }
    }
    assert forall|x: int, y: int| #[trigger] adjacent(m, x, y) implies adjacent(g, x, y) by {
        lemma_tree_adjacent(edges, n, x, y);
        let k = choose|k: int| 0 <= k < edges.len() && #[trigger] edges[k].links(x, y);
        assert(is_edge(g, edges[k]));
    }
    assert forall|a: int, b: int| 0 <= a < n && 0 <= b < n implies #[trigger] joined(g, a, b) by {
        assert(joined(m, a, b));
        lemma_joined_in_larger(m, g, a, b);
    }
}

/// Selection is a function of the graph: two outcomes that both meet what is
/// owed for one graph are the same outcome. Running it twice gives the same
/// edges in the same order, ties in weight included.
pub proof fn lemma_selection_unique(
    g: Seq<Seq<i32>>,
    first: Result<Seq<Edge>, GraphError>,
    second: Result<Seq<Edge>, GraphError>,
)
    requires
        is_selection(g, first),
        is_selection(g, second),
    ensures
        first == second,
{
    if first is Ok && second is Ok {
        let a = first->Ok_0;
        let b = second->Ok_0;
        lemma_run_unique(g, a, b, a.len() as int);
        assert(a.take(a.len() as int) =~= a);
        assert(b.take(b.len() as int) =~= b);
    }
}

/// The cut property: every edge of a run but the first has one endpoint among
/// the vertices that the edges before it touch, and the other outside them.
pub proof fn lemma_cut_property(g: Seq<Seq<i32>>, edges: Seq<Edge>, k: int)
    requires
        is_prim_run(g, edges),
        1 <= k < edges.len(),
    ensures
        visited_set(edges.take(k)).contains(edges[k].src as int) != visited_set(
            edges.take(k),
        ).contains(edges[k].dst as int),
{
    lemma_run_edges(g, edges, k);
}

/// A spanning tree: its edges in the order in which they were accepted, and
/// the same tree as a symmetric adjacency matrix.
#[derive(Debug)]
pub struct SpanningTree {
    pub edges: Vec<Edge>,
    pub matrix: Vec<Vec<i32>>,
}

/// The outcome of selection with the edges taken by their view.
pub open spec fn selection_view(r: Result<Vec<Edge>, GraphError>) -> Result<Seq<Edge>, GraphError> {
    match r {
        Ok(edges) => Ok(edges@),
        Err(e) => Err(e),
    }
}

/// Puts every edge of the graph, one for each nonzero cell above the diagonal,
/// into a queue.
fn load_edges(matrix: &Vec<Vec<i32>>) -> (queue: EdgeQueue)
    requires
        is_graph(matrix.deep_view()),
    ensures
        queue.wf(),
        forall|x: Edge|
            #![trigger queue@.contains(x)]
            #![trigger is_edge(matrix.deep_view(), x)]
            queue@.contains(x) <==> is_edge(matrix.deep_view(), x),
{
    let ghost g = matrix.deep_view();
    let n = matrix.len();
    let mut queue = EdgeQueue::new();
    let mut i: usize = 0;
    while i < n
        invariant
            i <= n,
            n == matrix.len(),
            g == matrix.deep_view(),
            is_graph(g),
            queue.wf(),
            forall|x: Edge|
                #![trigger queue@.contains(x)]
                #![trigger is_edge(g, x)]
                queue@.contains(x) <==> (is_edge(g, x) && x.src < i),
        decreases n - i,
    {
        let mut j: usize = i + 1;
        while j < n
            invariant
                i < n,
                i < j <= n,
                n == matrix.len(),
                g == matrix.deep_view(),
                is_graph(g),
                queue.wf(),
                forall|x: Edge|
                    #![trigger queue@.contains(x)]
                    #![trigger is_edge(g, x)]
                    queue@.contains(x) <==> (is_edge(g, x) && (x.src < i || (x.src == i && x.dst
                        < j))),
            decreases n - j,
        {
            assert(g[i as int].len() == n);
            let w = matrix[i][j];
            assert(w == g[i as int][j as int]);
            if w != 0 {
                queue.push(Edge { src: i as u32, dst: j as u32, weight: w });
            }
            j += 1;
        }
        i += 1;
    }
    queue
}

/// Selects the edges of a minimum spanning tree, in the order of acceptance.
///
/// The least edge of the graph seeds the tree. After that the queue is popped
/// until an edge comes that crosses from the tree to the rest of the graph; the
/// edges popped before it are held back and return to the queue once it is
/// accepted, since the new vertex may have made them cross. Re-reading the held
/// edges makes this slower than a queue of frontier vertices would be, in
/// exchange for an acceptance test that needs nothing but the visited flags.
///
/// The graph is disconnected exactly when the queue runs dry before the tree
/// spans it, and then the error is returned.
pub fn select_crossing_edges(matrix: &Vec<Vec<i32>>) -> (r: Result<Vec<Edge>, GraphError>)
    requires
        is_graph(matrix.deep_view()),
    ensures
        is_selection(matrix.deep_view(), selection_view(r)),
        r matches Ok(edges) ==> is_spanning_tree(edges@, matrix.deep_view().len()),
        r matches Ok(edges) ==> is_minimum(matrix.deep_view(), edges@),
{
    let ghost g = matrix.deep_view();
    let n = matrix.len();
    let mut mst: Vec<Edge> = Vec::new();
    if n <= 1 {
        proof {
            lemma_run_is_spanning_tree(g, mst@);
            lemma_run_is_minimum(g, mst@);
        }
        return Ok(mst);
    }
    let mut queue = load_edges(matrix);
    let mut visited: Vec<bool> = Vec::new();
    let mut i: usize = 0;
    while i < n
        invariant
            i <= n,
            visited@.len() == i,
            forall|v: int| 0 <= v < i ==> !visited@[v],
        decreases n - i,
    {
        visited.push(false);
        i += 1;
    }
    let first = match queue.pop_min() {
        Some(e) => e,
        None => {
            proof {
                if connected(g) {
                    let x = lemma_connected_has_crossing(g, set![0int], 0, 1);
                    assert(queue@.contains(x));
                }
            }
            return Err(GraphError::DisconnectedGraph);
        },
    };
    proof {
        let none = Seq::<Edge>::empty();
        assert(is_edge(g, first));
        assert(is_next(g, none, first));
        lemma_run_extend(g, none, first);
        lemma_visited_push(none, first);
    }
    visited[first.src as usize] = true;
    visited[first.dst as usize] = true;
    mst.push(first);
    let mut held: Vec<Edge> = Vec::new();
    while mst.len() < n - 1
        invariant
            n == matrix.len(),
            n >= 2,
            g == matrix.deep_view(),
            is_graph(g),
            visited@.len() == n,
            forall|v: int| 0 <= v < n ==> visited@[v] == visited_set(mst@).contains(v),
            1 <= mst@.len() <= n - 1,
            is_prim_run(g, mst@),
            queue.wf(),
            forall|x: Edge| #[trigger] queue@.contains(x) ==> is_edge(g, x),
            forall|x: Edge|
                #[trigger] held@.contains(x) ==> is_edge(g, x) && !crosses(x, visited_set(mst@)),
            forall|x: Edge| #[trigger]
                is_edge(g, x) ==> queue@.contains(x) || held@.contains(x) || (visited_set(
                    mst@,
                ).contains(x.src as int) && visited_set(mst@).contains(x.dst as int)),
        decreases n - 1 - mst@.len(), queue@.len(),
    {
        let ghost tree = mst@;
        let ghost seen = visited_set(tree);
        let ghost waiting = queue@;
        match queue.pop_min() {
            None => {
                proof {
                    assert(tree.take(tree.len() as int) =~= tree);
                    lemma_run_visited_len(g, tree, tree.len() as int);
                    let b = lemma_vertex_outside(seen, n as nat);
                    let a = tree[0].src as int;
                    lemma_run_edges(g, tree, 0);
                    lemma_visited_char(tree, a);
                    assert(tree[0].touches(a));
                    if connected(g) {
                        let x = lemma_connected_has_crossing(g, seen, a, b);
                        assert(held@.contains(x));
                    }
                }
                return Err(GraphError::DisconnectedGraph);
            },
            Some(e) => {
                assert(waiting.contains(e));
                assert(is_edge(g, e));
                let a = e.src as usize;
                let b = e.dst as usize;
                if visited[a] != visited[b] {
                    proof {
                        assert forall|x: Edge| #[trigger] is_candidate(g, tree, x) implies e.precedes(
                            x,
                        ) by {
                            assert(waiting.contains(x));
                        }
                        assert(is_next(g, tree, e));
                        lemma_run_extend(g, tree, e);
                        lemma_visited_push(tree, e);
                    }
                    visited[a] = true;
                    visited[b] = true;
                    mst.push(e);
                    while held.len() > 0
                        invariant
                            g == matrix.deep_view(),
                            queue.wf(),
                            forall|x: Edge| #[trigger] queue@.contains(x) ==> is_edge(g, x),
                            forall|x: Edge| #[trigger] held@.contains(x) ==> is_edge(g, x),
                            forall|x: Edge| #[trigger]
                                is_edge(g, x) ==> queue@.contains(x) || held@.contains(x) || (
                                visited_set(mst@).contains(x.src as int) && visited_set(
                                    mst@,
                                ).contains(x.dst as int)),
                        decreases held@.len(),
                    {
                        let ghost kept = held@;
                        let h = held.pop().unwrap();
                        assert(kept.contains(h));
                        queue.push(h);
                        proof {
                            assert forall|x: Edge| #[trigger] kept.contains(x) implies x == h
                                || held@.contains(x) by {
                                let i = choose|i: int| 0 <= i < kept.len() && kept[i] == x;
                                if i < kept.len() - 1 {
                                    assert(held@[i] == x);
                                }
                            }
                            assert forall|x: Edge| #[trigger] held@.contains(x) implies kept.contains(
                                x,
                            ) by {
                                let i = choose|i: int| 0 <= i < held@.len() && held@[i] == x;
                                assert(kept[i] == x);
                            }
                        }
                    }
                } else {
                    let ghost kept = held@;
                    held.push(e);
                    proof {
                        assert forall|x: Edge| #[trigger] held@.contains(x) implies x == e
                            || kept.contains(x) by {
                            let i = choose|i: int| 0 <= i < held@.len() && held@[i] == x;
                            if i < kept.len() {
                                assert(kept[i] == x);
                            }
                        }
                        assert(held@[held@.len() - 1] == e);
                        assert forall|x: Edge| kept.contains(x) implies #[trigger] held@.contains(
                            x,
                        ) by {
                            let i = choose|i: int| 0 <= i < kept.len() && kept[i] == x;
                            assert(held@[i] == x);
                        }
                    }
                }
            },
        }
    }
    proof {
        lemma_run_is_spanning_tree(g, mst@);
        lemma_run_is_minimum(g, mst@);
    }
    Ok(mst)
}

/// Writes a list of edges out as a symmetric adjacency matrix with one row more
/// than there are edges: the size of the tree that the edges form.
///
/// Both cells of an edge get its weight and every other cell is 0. Should two
/// edges of the list run between the same vertices, the later one decides.
pub fn materialize(edges: &Vec<Edge>) -> (m: Vec<Vec<i32>>)
    requires
        edges@.len() < usize::MAX,
        forall|k: int|
            0 <= k < edges@.len() ==> (#[trigger] edges@[k]).src <= edges@.len() && edges@[k].dst
                <= edges@.len(),
    ensures
        m.deep_view() == tree_cells(edges@, edges@.len() + 1),
{
    let size = edges.len() + 1;
    let mut m: Vec<Vec<i32>> = Vec::new();
    let mut i: usize = 0;
    while i < size
        invariant
            i <= size,
            m@.len() == i,
            forall|r: int| 0 <= r < i ==> (#[trigger] m@[r])@.len() == size,
            forall|r: int, c: int| 0 <= r < i && 0 <= c < size ==> (#[trigger] m@[r]@[c]) == 0,
        decreases size - i,
    {
        let mut row: Vec<i32> = Vec::new();
        let mut j: usize = 0;
        while j < size
            invariant
                j <= size,
                row@.len() == j,
                forall|c: int| 0 <= c < j ==> row@[c] == 0,
            decreases size - j,
        {
            row.push(0);
            j += 1;
        }
        m.push(row);
        i += 1;
    }
    let mut k: usize = 0;
    while k < edges.len()
        invariant
            k <= edges@.len(),
            size == edges@.len() + 1,
            forall|k: int|
                0 <= k < edges@.len() ==> (#[trigger] edges@[k]).src <= edges@.len()
                    && edges@[k].dst <= edges@.len(),
            m@.len() == size,
            forall|r: int| 0 <= r < size ==> (#[trigger] m@[r])@.len() == size,
            forall|r: int, c: int|
                0 <= r < size && 0 <= c < size ==> (#[trigger] m@[r]@[c]) == tree_weight(
                    edges@.take(k as int),
                    r,
                    c,
                ),
        decreases edges@.len() - k,
    {
        let e = edges[k];
        let a = e.src as usize;
        let b = e.dst as usize;
        m[a][b] = e.weight;
        m[b][a] = e.weight;
        proof {
            let done = edges@.take(k as int);
            let more = edges@.take(k + 1);
            assert(more.drop_last() =~= done);
            assert(more.last() == e);
        }
        k += 1;
    }
    assert(edges@.take(edges@.len() as int) =~= edges@);
    assert(m.deep_view() =~~= tree_cells(edges@, size as nat));
    m
}

/// Builds the minimum spanning tree of a connected graph.
///
/// On a connected graph the result holds the `n - 1` edges that crossing-edge
/// selection accepts, each the least edge that crossed from the tree to the
/// rest of the graph when it was taken, and the tree's matrix, which has the
/// size of the graph's. No spanning tree of the graph weighs less. A graph of
/// one vertex, or of none, has the tree without edges. On a graph that
/// is not connected the result is [`GraphError::DisconnectedGraph`]; no partial
/// tree is returned.
pub fn build_mst(matrix: &Vec<Vec<i32>>) -> (r: Result<SpanningTree, GraphError>)
    requires
        is_graph(matrix.deep_view()),
    ensures
        match r {
            Ok(tree) => {
                &&& is_selection(matrix.deep_view(), Ok(tree.edges@))
                &&& is_spanning_tree(tree.edges@, matrix.deep_view().len())
                &&& is_minimum(matrix.deep_view(), tree.edges@)
                &&& tree.matrix.deep_view() == tree_cells(tree.edges@, matrix.deep_view().len())
            },
            Err(e) => is_selection(matrix.deep_view(), Err(e)),
        },
{
    match select_crossing_edges(matrix) {
        Ok(edges) => {
            proof {
                assert forall|k: int| 0 <= k < edges@.len() implies (#[trigger] edges@[k]).src
                    <= edges@.len() && edges@[k].dst <= edges@.len() by {
                    lemma_run_edges(matrix.deep_view(), edges@, k);
                }
            }
            if matrix.len() == 0 {
                let cells: Vec<Vec<i32>> = Vec::new();
                assert(cells.deep_view() =~= tree_cells(edges@, 0));
                return Ok(SpanningTree { edges, matrix: cells });
            }
            let cells = materialize(&edges);
            Ok(SpanningTree { edges, matrix: cells })
        },
        Err(e) => Err(e),
    }
}

} // verus!
