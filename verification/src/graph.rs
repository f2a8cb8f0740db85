//! The graph that an adjacency matrix describes.

use crate::edge::Edge;
use vstd::prelude::*;

verus! {

/// Why a spanning tree or a tour could not be produced.
#[derive(Clone, Copy, Debug, PartialEq, Eq, Structural)]
pub enum GraphError {
    /// The graph falls into several components, so no tree spans it.
    DisconnectedGraph,
    /// The walk of the tree from the root does not visit every vertex exactly once.
    UnreachableVertex,
    /// Two vertices that follow each other in the tour have no edge between them.
    MissingEdge,
}

/// A matrix has as many columns in every row as it has rows.
pub open spec fn is_square(g: Seq<Seq<i32>>) -> bool {
    forall|i: int| 0 <= i < g.len() ==> (#[trigger] g[i]).len() == g.len()
}

/// What the functions of this crate accept as a graph: a square matrix whose
/// vertex numbers fit the `i32` by which tours name them.
pub open spec fn is_graph(g: Seq<Seq<i32>>) -> bool {
    is_square(g) && g.len() <= i32::MAX
}

/// Decides whether a matrix is a graph in the sense of [`is_graph`]: whether it
/// is square and small enough for its vertices to be numbered by an `i32`.
pub fn is_adjacency_matrix(matrix: &Vec<Vec<i32>>) -> (ok: bool)
    ensures
        ok == is_graph(matrix.deep_view()),
{
    let ghost g = matrix.deep_view();
    let n = matrix.len();
    if n > 0x7fff_ffff {
        return false;
    }
    let mut i: usize = 0;
    while i < n
        invariant
            i <= n,
            n == matrix@.len(),
            g == matrix.deep_view(),
            forall|r: int| 0 <= r < i ==> (#[trigger] g[r]).len() == n,
        decreases n - i,
    {
        assert(g[i as int].len() == matrix@[i as int]@.len());
        if matrix[i].len() != n {
            return false;
        }
        i += 1;
    }
    true
}

/// The weight that the matrix holds for the undirected pair `{a, b}`.
///
/// Only the upper triangle of a matrix is ever read for this: the cell
/// `g[a][b]` with `a < b` speaks for both directions.
pub open spec fn weight_between(g: Seq<Seq<i32>>, a: int, b: int) -> i32 {
    if a < b {
        g[a][b]
    } else {
        g[b][a]
    }
}

/// Two distinct vertices of the graph with an edge between them.
pub open spec fn adjacent(g: Seq<Seq<i32>>, a: int, b: int) -> bool {
    &&& 0 <= a < g.len()
    &&& 0 <= b < g.len()
    &&& a != b
    &&& weight_between(g, a, b) != 0
}

/// `e` is one of the edges of the graph: a nonzero cell above the diagonal,
/// with its weight.
pub open spec fn is_edge(g: Seq<Seq<i32>>, e: Edge) -> bool {
    &&& e.src < e.dst < g.len()
    &&& e.weight == g[e.src as int][e.dst as int]
    &&& e.weight != 0
}

/// The edge of the graph that runs between two adjacent vertices.
pub open spec fn edge_between(g: Seq<Seq<i32>>, a: int, b: int) -> Edge {
    if a < b {
        Edge { src: a as u32, dst: b as u32, weight: g[a][b] }
    } else {
        Edge { src: b as u32, dst: a as u32, weight: g[b][a] }
    }
}

/// The `i`-th step of a vertex sequence follows an edge of the graph.
pub open spec fn is_step(g: Seq<Seq<i32>>, p: Seq<int>, i: int) -> bool {
    adjacent(g, p[i], p[i + 1])
}

/// A path: a non-empty sequence of vertices, each adjacent to the next.
pub open spec fn is_path(g: Seq<Seq<i32>>, p: Seq<int>) -> bool {
    &&& p.len() > 0
    &&& 0 <= p[0] < g.len()
    &&& forall|i: int| 0 <= i < p.len() - 1 ==> #[trigger] is_step(g, p, i)
}

/// Some path leads from `a` to `b`.
pub open spec fn joined(g: Seq<Seq<i32>>, a: int, b: int) -> bool {
    exists|p: Seq<int>| #[trigger] is_path(g, p) && p[0] == a && p[p.len() - 1] == b
}

/// Every vertex can be reached from every other.
pub open spec fn connected(g: Seq<Seq<i32>>) -> bool {
    forall|a: int, b: int| 0 <= a < g.len() && 0 <= b < g.len() ==> #[trigger] joined(g, a, b)
}

/// Adjacent vertices are the endpoints of an edge of the graph.
pub proof fn lemma_adjacent_is_edge(g: Seq<Seq<i32>>, a: int, b: int)
    requires
        is_graph(g),
        adjacent(g, a, b),
    ensures
        is_edge(g, edge_between(g, a, b)),
        edge_between(g, a, b).links(a, b),
{
}

/// Every vertex on a path is a vertex of the graph.
pub proof fn lemma_path_in_range(g: Seq<Seq<i32>>, p: Seq<int>, i: int)
    requires
        is_path(g, p),
        0 <= i < p.len(),
    ensures
        0 <= p[i] < g.len(),
{
    if i > 0 {
        assert(is_step(g, p, i - 1));
    }
}

/// A vertex is joined to itself.
pub proof fn lemma_joined_reflexive(g: Seq<Seq<i32>>, a: int)
    requires
        0 <= a < g.len(),
    ensures
        joined(g, a, a),
{
    let p = seq![a];
    assert(is_path(g, p));
}

/// A path read backwards is a path.
pub proof fn lemma_joined_symmetric(g: Seq<Seq<i32>>, a: int, b: int)
    requires
        joined(g, a, b),
    ensures
        joined(g, b, a),
{
    let p = choose|p: Seq<int>| #[trigger] is_path(g, p) && p[0] == a && p[p.len() - 1] == b;
    let n = p.len() as int;
    let q = Seq::new(p.len(), |i: int| p[n - 1 - i]);
    lemma_path_in_range(g, p, n - 1);
    assert forall|i: int| 0 <= i < q.len() - 1 implies #[trigger] is_step(g, q, i) by {
        assert(is_step(g, p, n - 2 - i));
    }
    assert(is_path(g, q));
}

/// A path from `a` to `b` followed by one from `b` to `c` leads from `a` to `c`.
pub proof fn lemma_joined_transitive(g: Seq<Seq<i32>>, a: int, b: int, c: int)
    requires
        joined(g, a, b),
        joined(g, b, c),
    ensures
        joined(g, a, c),
{
    let p = choose|p: Seq<int>| #[trigger] is_path(g, p) && p[0] == a && p[p.len() - 1] == b;
    let q = choose|q: Seq<int>| #[trigger] is_path(g, q) && q[0] == b && q[q.len() - 1] == c;
    let r = p + q.subrange(1, q.len() as int);
    assert forall|i: int| 0 <= i < r.len() - 1 implies #[trigger] is_step(g, r, i) by {
        if i < p.len() - 1 {
            assert(is_step(g, p, i));
        } else {
            assert(is_step(g, q, i - (p.len() - 1)));
        }
    }
    assert(is_path(g, r));
}

/// One edge in front of a path gives a longer path.
pub proof fn lemma_joined_by_step(g: Seq<Seq<i32>>, a: int, b: int, c: int)
    requires
        adjacent(g, a, b),
        joined(g, b, c),
    ensures
        joined(g, a, c),
{
    let p = seq![a, b];
    assert(is_step(g, p, 0));
    assert(is_path(g, p));
    assert(joined(g, a, b));
    lemma_joined_transitive(g, a, b, c);
}

/// A path that starts inside a set of vertices and ends outside it leaves the
/// set along one of its steps. The result is the index of such a step.
pub proof fn lemma_path_leaves(g: Seq<Seq<i32>>, p: Seq<int>, inside: Set<int>, from: int) -> (i: int)
    requires
        is_path(g, p),
        0 <= from < p.len(),
        inside.contains(p[from]),
        !inside.contains(p[p.len() - 1]),
    ensures
        from <= i < p.len() - 1,
        inside.contains(p[i]),
        !inside.contains(p[i + 1]),
        adjacent(g, p[i], p[i + 1]),
    decreases p.len() - from,
{
    assert(is_step(g, p, from));
    if inside.contains(p[from + 1]) {
        lemma_path_leaves(g, p, inside, from + 1)
    } else {
        from
    }
}

/// Where every pair adjacent in `h` is adjacent in `g`, what `h` joins `g` joins too.
pub proof fn lemma_joined_in_larger(h: Seq<Seq<i32>>, g: Seq<Seq<i32>>, a: int, b: int)
    requires
        h.len() == g.len(),
        forall|x: int, y: int| #[trigger] adjacent(h, x, y) ==> adjacent(g, x, y),
        joined(h, a, b),
    ensures
        joined(g, a, b),
{
    let p = choose|p: Seq<int>| #[trigger] is_path(h, p) && p[0] == a && p[p.len() - 1] == b;
    assert forall|i: int| 0 <= i < p.len() - 1 implies #[trigger] is_step(g, p, i) by {
        assert(is_step(h, p, i));
    }
    assert(is_path(g, p));
}

} // verus!
