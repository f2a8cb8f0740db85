//! Why the tree that selection builds is a minimum spanning tree.
//!
//! Any spanning tree can be turned into the selected one edge by edge: where
//! the two differ first, the selected edge is put in place of an edge of the
//! other tree that crosses the same cut and weighs no less. The tree stays
//! connected and never gets heavier, so it was no lighter to begin with.

use crate::edge::Edge;
use crate::graph::{
    adjacent, connected, is_edge, is_graph, is_path, is_step, joined, lemma_joined_by_step,
    lemma_joined_reflexive, lemma_joined_symmetric, lemma_joined_transitive, lemma_path_in_range,
    lemma_path_leaves,
};
use crate::mst::{
    edges_needed, is_candidate, is_next, is_prim_run, lemma_run_edges, lemma_tree_adjacent,
    lemma_visited_char, tree_cells, visited_set,
};
use vstd::prelude::*;

verus! {

/// The sum of the weights of a list of edges.
pub open spec fn total_weight(edges: Seq<Edge>) -> int
    decreases edges.len(),
{
    if edges.len() == 0 {
        0
    } else {
        total_weight(edges.drop_last()) + edges.last().weight
    }
}

/// The edges are edges of the graph, one less than it has vertices, and they
/// join every vertex to every other: a spanning tree of the graph.
pub open spec fn spans(g: Seq<Seq<i32>>, t: Seq<Edge>) -> bool {
    &&& t.len() == edges_needed(g.len())
    &&& forall|i: int| 0 <= i < t.len() ==> is_edge(g, #[trigger] t[i])
    &&& connected(tree_cells(t, g.len()))
}

/// No spanning tree of the graph weighs less than these edges.
pub open spec fn is_minimum(g: Seq<Seq<i32>>, edges: Seq<Edge>) -> bool {
    forall|t: Seq<Edge>| #[trigger] spans(g, t) ==> total_weight(edges) <= total_weight(t)
}

/// Putting another edge in place of one changes the total by the difference of
/// the two weights.
proof fn lemma_weight_update(t: Seq<Edge>, j: int, e: Edge)
    requires
        0 <= j < t.len(),
    ensures
        total_weight(t.update(j, e)) == total_weight(t) - t[j].weight + e.weight,
    decreases t.len(),
{
    let changed = t.update(j, e);
    if j == t.len() - 1 {
        assert(changed.drop_last() =~= t.drop_last());
    } else {
        lemma_weight_update(t.drop_last(), j, e);
        assert(changed.drop_last() =~= t.drop_last().update(j, e));
    }
}

/// A path with a vertex on it twice can be cut short. The result is a path
/// between the same two vertices that visits no vertex twice.
proof fn lemma_simple_path(g: Seq<Seq<i32>>, p: Seq<int>) -> (q: Seq<int>)
    requires
        is_path(g, p),
    ensures
        is_path(g, q),
        q[0] == p[0],
        q[q.len() - 1] == p[p.len() - 1],
        q.no_duplicates(),
    decreases p.len(),
{
    if p.no_duplicates() {
        p
    } else {
        let (i, j) = choose|i: int, j: int|
            0 <= i < p.len() && 0 <= j < p.len() && i != j && p[i] == p[j];
        let (lo, hi) = if i < j {
            (i, j)
        } else {
            (j, i)
        };
        let shorter = p.subrange(0, lo + 1) + p.subrange(hi + 1, p.len() as int);
        assert forall|k: int| 0 <= k < shorter.len() - 1 implies #[trigger] is_step(
            g,
            shorter,
            k,
        ) by {
            if k < lo {
                assert(is_step(g, p, k));
            } else {
                assert(is_step(g, p, k + (hi - lo)));
            }
        }
        lemma_simple_path(g, shorter)
    }
}

/// Along a path of one graph whose every step joins its two ends in another
/// graph, the other graph joins the first vertex to each vertex of the path.
proof fn lemma_joined_along(h: Seq<Seq<i32>>, g: Seq<Seq<i32>>, p: Seq<int>, k: int)
    requires
        h.len() == g.len(),
        is_path(h, p),
        0 <= k < p.len(),
        forall|i: int| 0 <= i < p.len() - 1 ==> joined(g, #[trigger] p[i], p[i + 1]),
    ensures
        joined(g, p[0], p[k]),
    decreases k,
{
    if k == 0 {
        lemma_joined_reflexive(g, p[0]);
    } else {
        lemma_joined_along(h, g, p, k - 1);
        assert(joined(g, p[k - 1], p[k]));
        lemma_joined_transitive(g, p[0], p[k - 1], p[k]);
    }
}

/// What was connected stays connected when every pair of adjacent vertices is
/// still joined.
proof fn lemma_connected_through(h: Seq<Seq<i32>>, g: Seq<Seq<i32>>)
    requires
        h.len() == g.len(),
        connected(h),
        forall|a: int, b: int| #[trigger] adjacent(h, a, b) ==> joined(g, a, b),
    ensures
        connected(g),
{
    assert forall|a: int, b: int| 0 <= a < g.len() && 0 <= b < g.len() implies #[trigger] joined(
        g,
        a,
        b,
    ) by {
        assert(joined(h, a, b));
        let p = choose|p: Seq<int>| #[trigger] is_path(h, p) && p[0] == a && p[p.len() - 1] == b;
        assert forall|i: int| 0 <= i < p.len() - 1 implies joined(g, #[trigger] p[i], p[i + 1]) by {
            assert(is_step(h, p, i));
        }
        lemma_joined_along(h, g, p, p.len() - 1);
    }
}

/// The weights of edges of the graph are nonzero.
proof fn lemma_edges_weigh(g: Seq<Seq<i32>>, t: Seq<Edge>)
    requires
        forall|i: int| 0 <= i < t.len() ==> is_edge(g, #[trigger] t[i]),
    ensures
        forall|i: int| 0 <= i < t.len() ==> (#[trigger] t[i]).weight != 0,
{
    assert forall|i: int| 0 <= i < t.len() implies (#[trigger] t[i]).weight != 0 by {
        assert(is_edge(g, t[i]));
    }
}

/// An adjacent pair of vertices of a simple path is one of its steps and no other.
proof fn lemma_simple_step(p: Seq<int>, i: int, k: int)
    requires
        p.no_duplicates(),
        0 <= i < p.len() - 1,
        0 <= k < p.len() - 1,
        (p[k] == p[i] && p[k + 1] == p[i + 1]) || (p[k] == p[i + 1] && p[k + 1] == p[i]),
    ensures
        k == i,
{
}

/// A spanning tree stays connected when one of its edges on the path between
/// the ends of another edge gives way to that edge.
proof fn lemma_exchange_connected(
    g: Seq<Seq<i32>>,
    t: Seq<Edge>,
    j: int,
    e: Edge,
    p: Seq<int>,
    i: int,
)
    requires
        forall|k: int| 0 <= k < t.len() ==> is_edge(g, #[trigger] t[k]),
        is_edge(g, e),
        connected(tree_cells(t, g.len())),
        0 <= j < t.len(),
        is_path(tree_cells(t, g.len()), p),
        p.no_duplicates(),
        e.links(p[0], p[p.len() - 1]),
        0 <= i < p.len() - 1,
        t[j].links(p[i], p[i + 1]),
    ensures
        connected(tree_cells(t.update(j, e), g.len())),
{
    let n = g.len();
    let old = tree_cells(t, n);
    let changed = t.update(j, e);
    let new = tree_cells(changed, n);
    let x = p[i];
    let y = p[i + 1];
    lemma_edges_weigh(g, t);
    assert forall|k: int| 0 <= k < changed.len() implies (#[trigger] changed[k]).weight != 0 by {
        if k != j {
            assert(changed[k] == t[k]);
        }
    }
    // every adjacent pair but {x, y} stays adjacent
    assert forall|a: int, b: int| #[trigger] adjacent(old, a, b) implies adjacent(new, a, b) || (a
        == x && b == y) || (a == y && b == x) by {
        lemma_tree_adjacent(t, n, a, b);
        lemma_tree_adjacent(changed, n, a, b);
        let k = choose|k: int| 0 <= k < t.len() && #[trigger] t[k].links(a, b);
        if k != j {
            assert(changed[k].links(a, b));
        }
    }
    // the two ends of the new edge are adjacent
    lemma_path_in_range(old, p, 0);
    lemma_path_in_range(old, p, p.len() - 1);
    assert(adjacent(new, p[0], p[p.len() - 1])) by {
        lemma_tree_adjacent(changed, n, p[0], p[p.len() - 1]);
        assert(changed[j].links(p[0], p[p.len() - 1]));
    }
    // x is joined to the start of the path and y to its end
    lemma_prefix_joined(old, new, p, i, i);
    lemma_suffix_joined(old, new, p, i, i + 1);
    lemma_joined_symmetric(new, p[0], x);
    lemma_joined_reflexive(new, p[p.len() - 1]);
    lemma_joined_by_step(new, p[0], p[p.len() - 1], p[p.len() - 1]);
    lemma_joined_transitive(new, x, p[0], p[p.len() - 1]);
    lemma_joined_symmetric(new, y, p[p.len() - 1]);
    lemma_joined_transitive(new, x, p[p.len() - 1], y);
    lemma_joined_symmetric(new, x, y);
    assert forall|a: int, b: int| #[trigger] adjacent(old, a, b) implies joined(new, a, b) by {
        if adjacent(new, a, b) {
            lemma_joined_reflexive(new, b);
            lemma_joined_by_step(new, a, b, b);
        }
    }
    lemma_connected_through(old, new);
}

/// The start of a simple path is joined to each vertex before the step that
/// is taken out, by the steps that stay.
proof fn lemma_prefix_joined(
    old: Seq<Seq<i32>>,
    new: Seq<Seq<i32>>,
    p: Seq<int>,
    i: int,
    k: int,
)
    requires
        old.len() == new.len(),
        is_path(old, p),
        p.no_duplicates(),
        0 <= k <= i < p.len() - 1,
        forall|a: int, b: int|
            #[trigger] adjacent(old, a, b) ==> adjacent(new, a, b) || (a == p[i] && b == p[i + 1])
                || (a == p[i + 1] && b == p[i]),
    ensures
        joined(new, p[0], p[k]),
    decreases k,
{
    if k == 0 {
        lemma_joined_reflexive(new, p[0]);
    } else {
        lemma_prefix_joined(old, new, p, i, k - 1);
        assert(is_step(old, p, k - 1));
        assert(adjacent(old, p[k - 1], p[k]));
        if !adjacent(new, p[k - 1], p[k]) {
            lemma_simple_step(p, i, k - 1);
        }
        lemma_joined_reflexive(new, p[k]);
        lemma_joined_by_step(new, p[k - 1], p[k], p[k]);
        lemma_joined_transitive(new, p[0], p[k - 1], p[k]);
    }
}

/// Each vertex after the step that is taken out is joined to the end of the
/// path, by the steps that stay.
proof fn lemma_suffix_joined(
    old: Seq<Seq<i32>>,
    new: Seq<Seq<i32>>,
    p: Seq<int>,
    i: int,
    k: int,
)
    requires
        old.len() == new.len(),
        is_path(old, p),
        p.no_duplicates(),
        0 <= i < k <= p.len() - 1,
        forall|a: int, b: int|
            #[trigger] adjacent(old, a, b) ==> adjacent(new, a, b) || (a == p[i] && b == p[i + 1])
                || (a == p[i + 1] && b == p[i]),
    ensures
        joined(new, p[k], p[p.len() - 1]),
    decreases p.len() - k,
{
    if k == p.len() - 1 {
        lemma_path_in_range(old, p, k);
        lemma_joined_reflexive(new, p[k]);
    } else {
        lemma_suffix_joined(old, new, p, i, k + 1);
        assert(is_step(old, p, k));
        assert(adjacent(old, p[k], p[k + 1]));
        if !adjacent(new, p[k], p[k + 1]) {
            lemma_simple_step(p, i, k);
        }
        lemma_joined_by_step(new, p[k], p[k + 1], p[p.len() - 1]);
    }
}

/// Two lists with the same edges, in whatever order, join the same vertices.
proof fn lemma_swap_connected(g: Seq<Seq<i32>>, t: Seq<Edge>, a: int, b: int)
    requires
        forall|k: int| 0 <= k < t.len() ==> is_edge(g, #[trigger] t[k]),
        connected(tree_cells(t, g.len())),
        0 <= a < t.len(),
        0 <= b < t.len(),
    ensures
        connected(tree_cells(t.update(a, t[b]).update(b, t[a]), g.len())),
{
    let n = g.len();
    let swapped = t.update(a, t[b]).update(b, t[a]);
    lemma_edges_weigh(g, t);
    assert forall|k: int| 0 <= k < swapped.len() implies (#[trigger] swapped[k]).weight != 0 by {
        assert(swapped[k] == t[k] || swapped[k] == t[a] || swapped[k] == t[b]);
    }
    assert forall|x: int, y: int| #[trigger] adjacent(tree_cells(t, n), x, y) implies joined(
        tree_cells(swapped, n),
        x,
        y,
    ) by {
        lemma_tree_adjacent(t, n, x, y);
        lemma_tree_adjacent(swapped, n, x, y);
        let k = choose|k: int| 0 <= k < t.len() && #[trigger] t[k].links(x, y);
        if k == a {
            assert(swapped[b].links(x, y));
        } else if k == b {
            assert(swapped[a].links(x, y));
        } else {
            assert(swapped[k].links(x, y));
        }
        lemma_joined_reflexive(tree_cells(swapped, n), y);
        lemma_joined_by_step(tree_cells(swapped, n), x, y, y);
    }
    lemma_connected_through(tree_cells(t, n), tree_cells(swapped, n));
}

/// A spanning tree that agrees with the run on its first `k` edges weighs no
/// less than the run.
proof fn lemma_minimum_from(g: Seq<Seq<i32>>, run: Seq<Edge>, t: Seq<Edge>, k: int)
    requires
        is_graph(g),
        is_prim_run(g, run),
        run.len() == t.len(),
        0 <= k <= run.len(),
        forall|i: int| 0 <= i < t.len() ==> is_edge(g, #[trigger] t[i]),
        connected(tree_cells(t, g.len())),
        forall|i: int| 0 <= i < k ==> t[i] == run[i],
    ensures
        total_weight(run) <= total_weight(t),
    decreases run.len() - k,
{
    let n = g.len();
    if k == run.len() {
        assert(t =~= run);
    } else {
        let e = run[k];
        lemma_run_edges(g, run, k);
        assert(is_next(g, run.take(k), e));
        // a tree that agrees on the first k edges and holds e at some later place
        let (with, j) = if exists|j: int| k <= j < t.len() && t[j] == e {
            (t, choose|j: int| k <= j < t.len() && t[j] == e)
        } else {
            let tree = tree_cells(t, n);
            let seen = if k == 0 {
                set![e.src as int]
            } else {
                visited_set(run.take(k))
            };
            let (a, b) = if seen.contains(e.src as int) {
                (e.src as int, e.dst as int)
            } else {
                (e.dst as int, e.src as int)
            };
            assert(joined(tree, a, b));
            let path = choose|p: Seq<int>| #[trigger]
                is_path(tree, p) && p[0] == a && p[p.len() - 1] == b;
            let p = lemma_simple_path(tree, path);
            let i = lemma_path_leaves(tree, p, seen, 0);
            lemma_edges_weigh(g, t);
            lemma_tree_adjacent(t, n, p[i], p[i + 1]);
            let j = choose|j: int| 0 <= j < t.len() && #[trigger] t[j].links(p[i], p[i + 1]);
            assert(is_edge(g, t[j]));
            if j < k {
                assert(t[j] == run[j]);
                assert(run.take(k)[j] == run[j]);
                lemma_visited_char(run.take(k), t[j].src as int);
                lemma_visited_char(run.take(k), t[j].dst as int);
                assert(run.take(k)[j].touches(t[j].src as int));
                assert(run.take(k)[j].touches(t[j].dst as int));
            }
            assert(is_candidate(g, run.take(k), t[j]));
            assert(e.precedes(t[j]));
            lemma_exchange_connected(g, t, j, e, p, i);
            lemma_weight_update(t, j, e);
            (t.update(j, e), j)
        };
        assert(total_weight(with) <= total_weight(t));
        let swapped = with.update(j, with[k]).update(k, with[j]);
        lemma_swap_connected(g, with, j, k);
        lemma_weight_update(with, j, with[k]);
        lemma_weight_update(with.update(j, with[k]), k, with[j]);
        assert forall|i: int| 0 <= i < swapped.len() implies is_edge(g, #[trigger] swapped[i]) by {
            assert(swapped[i] == with[i] || swapped[i] == with[j] || swapped[i] == with[k]);
        }
        lemma_minimum_from(g, run, swapped, k + 1);
    }
}

/// The tree that selection builds is a minimum spanning tree: no spanning tree
/// of the graph weighs less.
pub proof fn lemma_run_is_minimum(g: Seq<Seq<i32>>, run: Seq<Edge>)
    requires
        is_graph(g),
        is_prim_run(g, run),
        run.len() == edges_needed(g.len()),
    ensures
        is_minimum(g, run),
{
    assert forall|t: Seq<Edge>| #[trigger] spans(g, t) implies total_weight(run) <= total_weight(
        t,
    ) by {
        lemma_minimum_from(g, run, t, 0);
    }
}

} // verus!
