//! Why the walk of a spanning tree visits every vertex exactly once.
//!
//! A tree has no cycle, so the walks from two children of a vertex never meet;
//! and a tree is connected, so the walk from the root leaves no vertex out.

use crate::edge::Edge;
use crate::graph::{
    adjacent, is_edge, is_graph, is_path, is_step, joined, lemma_path_in_range,
    lemma_path_leaves, GraphError,
};
use crate::mst::{
    edges_needed, is_prim_run, lemma_run_edges, lemma_run_is_spanning_tree, lemma_run_prefix,
    lemma_run_weights, lemma_tree_adjacent, lemma_tree_weight_char, lemma_visited_char,
    tree_cells, visited_set,
};
use crate::tour::{tour_outcome, visits_each_once};
use crate::walk::{
    all_vertices, held_by, is_kid, kid_test, kids_of, lemma_kids, lemma_unvisited_shrinks,
    lemma_walk_unfold, unvisited, vertex_ids, walk, walk_all,
};
use vstd::prelude::*;
use vstd::set_lib::{lemma_int_range, set_int_range};

verus! {

/// The matrix reads the same in both directions and has an empty diagonal: a
/// cell is nonzero exactly when its row and its column are adjacent vertices.
pub open spec fn is_plain(g: Seq<Seq<i32>>) -> bool {
    forall|a: int, b: int|
        0 <= a < g.len() && 0 <= b < g.len() ==> ((#[trigger] g[a][b]) != 0 <==> adjacent(g, a, b))
}

/// A path between two different neighbours of `x` that does not pass through
/// `x`: with the two edges at `x` it closes a cycle.
pub open spec fn is_detour(g: Seq<Seq<i32>>, x: int, p: Seq<int>) -> bool {
    &&& is_path(g, p)
    &&& adjacent(g, x, p[0])
    &&& adjacent(g, x, p[p.len() - 1])
    &&& p[0] != p[p.len() - 1]
    &&& forall|i: int| 0 <= i < p.len() ==> #[trigger] p[i] != x
}

/// The graph has no cycle.
pub open spec fn is_forest(g: Seq<Seq<i32>>) -> bool {
    forall|x: int, p: Seq<int>| !#[trigger] is_detour(g, x, p)
}

/// A path from `a` to `b` whose vertices from index `from` on are unvisited.
pub open spec fn is_trail(
    g: Seq<Seq<i32>>,
    p: Seq<int>,
    a: int,
    b: int,
    visited: Seq<i32>,
    from: int,
) -> bool {
    &&& is_path(g, p)
    &&& p[0] == a
    &&& p[p.len() - 1] == b
    &&& p.len() > from
    &&& forall|i: int| from <= i < p.len() ==> !visited.contains(#[trigger] p[i] as i32)
}

/// `b` can be reached from `a` through unvisited vertices, `a` included.
pub open spec fn tied(g: Seq<Seq<i32>>, a: int, b: int, visited: Seq<i32>) -> bool {
    exists|p: Seq<int>| #[trigger] is_trail(g, p, a, b, visited, 0)
}

/// `b` can be reached from `a` in one step or more through unvisited vertices,
/// `a` itself aside.
pub open spec fn tied_below(g: Seq<Seq<i32>>, a: int, b: int, visited: Seq<i32>) -> bool {
    exists|p: Seq<int>| #[trigger] is_trail(g, p, a, b, visited, 1)
}

/// What a walk owes: it lists no vertex twice and none that was visited; the
/// visited vertices after it are those before it and those it lists; and every
/// neighbour of a listed vertex is visited after it.
pub open spec fn is_clean(g: Seq<Seq<i32>>, visited: Seq<i32>, out: Seq<i32>, after: Seq<i32>) -> bool {
    &&& out.no_duplicates()
    &&& all_vertices(out, g.len())
    &&& forall|i: int| 0 <= i < out.len() ==> !visited.contains(#[trigger] out[i])
    &&& forall|v: i32|
        #![trigger after.contains(v)]
        after.contains(v) <==> (visited.contains(v) || out.contains(v))
    &&& forall|i: int, b: int|
        0 <= i < out.len() && #[trigger] adjacent(g, out[i] as int, b) ==> after.contains(b as i32)
}

/// The matrix of the edges of a run is plain.
proof fn lemma_tree_plain(g: Seq<Seq<i32>>, edges: Seq<Edge>)
    requires
        is_prim_run(g, edges),
    ensures
        is_plain(tree_cells(edges, g.len())),
{
    let m = tree_cells(edges, g.len());
    lemma_run_weights(g, edges);
    assert forall|a: int, b: int| 0 <= a < m.len() && 0 <= b < m.len() implies ((#[trigger] m[a][b])
        != 0 <==> adjacent(m, a, b)) by {
        lemma_tree_weight_char(edges, a, b);
        lemma_tree_weight_char(edges, b, a);
        if a == b && m[a][b] != 0 {
            let k = choose|k: int| 0 <= k < edges.len() && #[trigger] edges[k].links(a, b);
            assert(is_edge(g, edges[k]));
        }
    }
}

/// A vertex that no edge touches has no neighbour.
proof fn lemma_untouched_isolated(edges: Seq<Edge>, n: nat, w: int, b: int)
    requires
        forall|k: int| 0 <= k < edges.len() ==> (#[trigger] edges[k]).weight != 0,
        !visited_set(edges).contains(w),
    ensures
        !adjacent(tree_cells(edges, n), w, b),
        !adjacent(tree_cells(edges, n), b, w),
{
    lemma_tree_adjacent(edges, n, w, b);
    lemma_tree_adjacent(edges, n, b, w);
    lemma_visited_char(edges, w);
    if exists|k: int| 0 <= k < edges.len() && #[trigger] edges[k].links(w, b) {
        let k = choose|k: int| 0 <= k < edges.len() && #[trigger] edges[k].links(w, b);
        assert(edges[k].touches(w));
    }
    if exists|k: int| 0 <= k < edges.len() && #[trigger] edges[k].links(b, w) {
        let k = choose|k: int| 0 <= k < edges.len() && #[trigger] edges[k].links(b, w);
        assert(edges[k].touches(w));
    }
}

/// With one more edge, two vertices are adjacent when they were before or the
/// new edge runs between them.
proof fn lemma_adjacent_push(before: Seq<Edge>, e: Edge, n: nat, a: int, b: int)
    requires
        forall|k: int| 0 <= k < before.len() ==> (#[trigger] before[k]).weight != 0,
        e.weight != 0,
    ensures
        adjacent(tree_cells(before.push(e), n), a, b) <==> (adjacent(tree_cells(before, n), a, b) || (
        0 <= a < n && 0 <= b < n && a != b && e.links(a, b))),
{
    let longer = before.push(e);
    lemma_tree_adjacent(before, n, a, b);
    lemma_tree_adjacent(longer, n, a, b);
    if exists|k: int| 0 <= k < longer.len() && #[trigger] longer[k].links(a, b) {
        let k = choose|k: int| 0 <= k < longer.len() && #[trigger] longer[k].links(a, b);
        if k < before.len() {
            assert(before[k].links(a, b));
        }
    }
    if exists|k: int| 0 <= k < before.len() && #[trigger] before[k].links(a, b) {
        let k = choose|k: int| 0 <= k < before.len() && #[trigger] before[k].links(a, b);
        assert(longer[k].links(a, b));
    }
    if e.links(a, b) {
        assert(longer[before.len() as int].links(a, b));
    }
}

/// The first `m` edges of a run close no cycle: no path between two different
/// neighbours of a vertex gets round the vertex.
proof fn lemma_no_detour(g: Seq<Seq<i32>>, edges: Seq<Edge>, m: int, x: int, p: Seq<int>)
    requires
        is_prim_run(g, edges),
        0 <= m <= edges.len(),
    ensures
        !is_detour(tree_cells(edges.take(m), g.len()), x, p),
    decreases m, p.len(),
{
    let n = g.len();
    let now = edges.take(m);
    let forest = tree_cells(now, n);
    lemma_run_prefix(g, edges, m);
    lemma_run_weights(g, now);
    if is_detour(forest, x, p) {
        let first = p[0];
        let last = p[p.len() - 1];
        if m == 0 {
            lemma_tree_adjacent(now, n, x, first);
        } else {
            let before = edges.take(m - 1);
            let older = tree_cells(before, n);
            let e = edges[m - 1];
            assert(now =~= before.push(e));
            lemma_run_prefix(g, edges, m - 1);
            lemma_run_weights(g, before);
            lemma_run_edges(g, edges, m - 1);
            assert(e.weight != 0) by {
                assert(now[m - 1].weight != 0);
            }
            let w = if m == 1 || !visited_set(before).contains(e.dst as int) {
                e.dst as int
            } else {
                e.src as int
            };
            let u = if w == e.dst as int {
                e.src as int
            } else {
                e.dst as int
            };
            assert(!visited_set(before).contains(w)) by {
                if m == 1 {
                    assert(before.len() == 0);
                }
            }
            // the only neighbour of w is u
            assert forall|b: int| adjacent(forest, w, b) || adjacent(forest, b, w) implies b == u by {
                lemma_adjacent_push(before, e, n, w, b);
                lemma_adjacent_push(before, e, n, b, w);
                lemma_untouched_isolated(before, n, w, b);
            }
            if x == w {
                assert(adjacent(forest, w, first));
                assert(adjacent(forest, w, last));
            } else if first == w {
                assert(adjacent(forest, x, w));
                assert(is_step(forest, p, 0));
                assert(adjacent(forest, w, p[1]));
                assert(p[1] != x);
            } else if last == w {
                assert(adjacent(forest, x, w));
                assert(is_step(forest, p, p.len() - 2));
                assert(adjacent(forest, p[p.len() - 2], w));
                assert(p[p.len() - 2] != x);
            } else if exists|i: int| 0 <= i < p.len() && p[i] == w {
                let i = choose|i: int| 0 <= i < p.len() && p[i] == w;
                assert(is_step(forest, p, i - 1));
                assert(is_step(forest, p, i));
                assert(adjacent(forest, p[i - 1], w));
                assert(adjacent(forest, w, p[i + 1]));
                let q = p.subrange(0, i) + p.subrange(i + 2, p.len() as int);
                assert forall|j: int| 0 <= j < q.len() - 1 implies #[trigger] is_step(
                    forest,
                    q,
                    j,
                ) by {
                    if j < i - 1 {
                        assert(is_step(forest, p, j));
                    } else {
                        assert(is_step(forest, p, j + 2));
                    }
                }
                assert forall|j: int| 0 <= j < q.len() implies #[trigger] q[j] != x by {
                    if j < i {
                        assert(q[j] == p[j]);
                    } else {
                        assert(q[j] == p[j + 2]);
                    }
                }
                assert(is_detour(forest, x, q));
                lemma_no_detour(g, edges, m, x, q);
            } else {
                assert forall|j: int| 0 <= j < p.len() - 1 implies #[trigger] is_step(
                    older,
                    p,
                    j,
                ) by {
                    assert(is_step(forest, p, j));
                    lemma_adjacent_push(before, e, n, p[j], p[j + 1]);
                }
                lemma_adjacent_push(before, e, n, x, first);
                lemma_adjacent_push(before, e, n, x, last);
                assert(is_detour(older, x, p));
                lemma_no_detour(g, edges, m - 1, x, p);
            }
        }
    }
}

/// The matrix of the edges of a run is a forest.
pub proof fn lemma_run_is_forest(g: Seq<Seq<i32>>, edges: Seq<Edge>)
    requires
        is_prim_run(g, edges),
    ensures
        is_forest(tree_cells(edges, g.len())),
        is_plain(tree_cells(edges, g.len())),
{
    lemma_tree_plain(g, edges);
    assert(edges.take(edges.len() as int) =~= edges);
    assert forall|x: int, p: Seq<int>| !#[trigger] is_detour(tree_cells(edges, g.len()), x, p) by {
        lemma_no_detour(g, edges, edges.len() as int, x, p);
    }
}

/// The children of a vertex are all different, and every unvisited neighbour
/// is among them.
proof fn lemma_kids_distinct(g: Seq<Seq<i32>>, node: int, visited: Seq<i32>, k: nat)
    requires
        k <= g.len() <= i32::MAX,
    ensures
        vertex_ids(k).filter(kid_test(g, node, visited)).no_duplicates(),
        forall|i: int|
            0 <= i < vertex_ids(k).filter(kid_test(g, node, visited)).len() ==> 0 <= (
            #[trigger] vertex_ids(k).filter(kid_test(g, node, visited))[i]) < k,
        forall|v: i32|
            0 <= v < k && #[trigger] is_kid(g, node, visited, v) ==> vertex_ids(k).filter(
                kid_test(g, node, visited),
            ).contains(v),
    decreases k,
{
    let test = kid_test(g, node, visited);
    if k == 0 {
        assert(vertex_ids(0).filter(test) =~= Seq::<i32>::empty());
    } else {
        let fewer = vertex_ids((k - 1) as nat);
        let last = (k - 1) as i32;
        lemma_kids_distinct(g, node, visited, (k - 1) as nat);
        assert(vertex_ids(k) =~= fewer.push(last));
        fewer.lemma_filter_push(last, test);
        let small = fewer.filter(test);
        let kids = vertex_ids(k).filter(test);
        assert forall|v: i32| 0 <= v < k && #[trigger] is_kid(g, node, visited, v) implies kids.contains(
            v,
        ) by {
            if v < k - 1 {
                assert(small.contains(v));
                let i = choose|i: int| 0 <= i < small.len() && small[i] == v;
                assert(kids[i] == v);
            } else {
                assert(test(last));
                assert(kids[kids.len() - 1] == last);
            }
        }
    }
}

/// A trail through fewer visited vertices is a trail all the more.
proof fn lemma_trail_in_fewer(
    g: Seq<Seq<i32>>,
    p: Seq<int>,
    a: int,
    b: int,
    more: Seq<i32>,
    fewer: Seq<i32>,
    from: int,
)
    requires
        is_trail(g, p, a, b, more, from),
        held_by(fewer, more),
    ensures
        is_trail(g, p, a, b, fewer, from),
{
    assert forall|i: int| from <= i < p.len() implies !fewer.contains(#[trigger] p[i] as i32) by {
        if fewer.contains(p[i] as i32) {
            assert(more.contains(p[i] as i32));
        }
    }
}

/// The walk from an unvisited vertex of a forest is clean, and everything it
/// lists is tied to the vertex through vertices that were unvisited.
proof fn lemma_walk_clean(g: Seq<Seq<i32>>, x: i32, visited: Seq<i32>)
    requires
        is_graph(g),
        is_plain(g),
        is_forest(g),
        0 <= x < g.len(),
        !visited.contains(x),
    ensures
        is_clean(g, visited, walk(g, x, visited).0, walk(g, x, visited).1),
        forall|i: int|
            0 <= i < walk(g, x, visited).0.len() ==> tied(
                g,
                x as int,
                (#[trigger] walk(g, x, visited).0[i]) as int,
                visited,
            ),
    decreases unvisited(g.len(), visited.push(x)).len() + 1, 0nat,
{
    let n = g.len();
    let marked = visited.push(x);
    let kids = kids_of(g, x as int, marked);
    lemma_walk_unfold(g, x, visited);
    lemma_kids(g, x as int, marked);
    lemma_kids_distinct(g, x as int, marked, n);
    assert(marked[marked.len() - 1] == x);
    assert(held_by(marked, marked));
    assert forall|i: int| 0 <= i < kids.len() implies !marked.contains(#[trigger] kids[i])
        && g[x as int][kids[i] as int] != 0 by {
        assert(is_kid(g, x as int, marked, kids[i]));
    }
    lemma_walk_all_clean(g, x, kids, marked, marked);
    let below = walk_all(g, kids, marked);
    let out = below.0.push(x);
    let after = below.1;
    assert(walk(g, x, visited) == (out, after));
    assert(held_by(visited, marked)) by {
        assert forall|v: i32| visited.contains(v) implies #[trigger] marked.contains(v) by {
            let i = choose|i: int| 0 <= i < visited.len() && visited[i] == v;
            assert(marked[i] == v);
        }
    }
    assert forall|v: i32| marked.contains(v) implies visited.contains(v) || v == x by {
        let i = choose|i: int| 0 <= i < marked.len() && marked[i] == v;
        if i < visited.len() {
            assert(visited[i] == v);
        }
    }
    assert(out[out.len() - 1] == x);
    assert forall|v: i32| out.contains(v) <==> (below.0.contains(v) || v == x) by {
        if out.contains(v) {
            let i = choose|i: int| 0 <= i < out.len() && out[i] == v;
            if i < below.0.len() {
                assert(below.0[i] == v);
            }
        }
        if below.0.contains(v) {
            let i = choose|i: int| 0 <= i < below.0.len() && below.0[i] == v;
            assert(out[i] == v);
        }
    }
    assert(out.no_duplicates()) by {
        assert forall|i: int, j: int| 0 <= i < out.len() && 0 <= j < out.len() && i != j implies out[i]
            != out[j] by {
            if i < below.0.len() && j < below.0.len() {
                assert(below.0[i] != below.0[j]);
            } else if i < below.0.len() {
                assert(!marked.contains(below.0[i]));
            } else {
                assert(!marked.contains(below.0[j]));
            }
        }
    }
    assert forall|i: int| 0 <= i < out.len() implies !visited.contains(#[trigger] out[i]) by {
        if i < below.0.len() {
            assert(!marked.contains(below.0[i]));
        }
    }
    assert forall|v: i32| #![trigger after.contains(v)] after.contains(v) <==> (visited.contains(
        v,
    ) || out.contains(v)) by {
        assert(after.contains(v) <==> (marked.contains(v) || below.0.contains(v)));
    }
    assert forall|i: int, b: int| 0 <= i < out.len() && #[trigger] adjacent(
        g,
        out[i] as int,
        b,
    ) implies after.contains(b as i32) by {
        if i < below.0.len() {
            assert(adjacent(g, below.0[i] as int, b));
        } else {
            assert(g[x as int][b] != 0);
            if !marked.contains(b as i32) {
                assert(is_kid(g, x as int, marked, b as i32));
                assert(kids.contains(b as i32));
                let j = choose|j: int| 0 <= j < kids.len() && kids[j] == b as i32;
                assert(below.0.contains(kids[j]));
            }
        }
    }
    assert forall|i: int| 0 <= i < out.len() implies tied(
        g,
        x as int,
        (#[trigger] out[i]) as int,
        visited,
    ) by {
        if i < below.0.len() {
            assert(tied_below(g, x as int, below.0[i] as int, marked));
            let p = choose|p: Seq<int>| #[trigger]
                is_trail(g, p, x as int, below.0[i] as int, marked, 1);
            lemma_trail_in_fewer(g, p, x as int, below.0[i] as int, marked, visited, 1);
            assert(is_trail(g, p, x as int, out[i] as int, visited, 0));
        } else {
            let p = seq![x as int];
            assert(is_path(g, p));
            assert(is_trail(g, p, x as int, x as int, visited, 0));
        }
    }
}

/// The same for the walks from the children of `x` that are still to come,
/// where `base` is what was visited when the children were collected.
proof fn lemma_walk_all_clean(
    g: Seq<Seq<i32>>,
    x: i32,
    kids: Seq<i32>,
    visited: Seq<i32>,
    base: Seq<i32>,
)
    requires
        is_graph(g),
        is_plain(g),
        is_forest(g),
        0 <= x < g.len(),
        base.contains(x),
        held_by(base, visited),
        all_vertices(kids, g.len()),
        kids.no_duplicates(),
        forall|i: int|
            0 <= i < kids.len() ==> !visited.contains(#[trigger] kids[i]) && g[x as int][kids[i] as int]
                != 0,
    ensures
        is_clean(g, visited, walk_all(g, kids, visited).0, walk_all(g, kids, visited).1),
        forall|i: int|
            0 <= i < walk_all(g, kids, visited).0.len() ==> tied_below(
                g,
                x as int,
                (#[trigger] walk_all(g, kids, visited).0[i]) as int,
                visited,
            ),
        forall|i: int|
            0 <= i < kids.len() ==> walk_all(g, kids, visited).0.contains(#[trigger] kids[i]),
    decreases unvisited(g.len(), base).len(), kids.len() + 1,
{
    let n = g.len();
    if kids.len() > 0 {
        let kid = kids[0];
        let rest = kids.skip(1);
        let marked = visited.push(kid);
        assert(marked[marked.len() - 1] == kid);
        assert(visited.contains(x));
        assert(!base.contains(kid));
        assert(held_by(base, marked)) by {
            assert forall|v: i32| base.contains(v) implies #[trigger] marked.contains(v) by {
                assert(visited.contains(v));
                let i = choose|i: int| 0 <= i < visited.len() && visited[i] == v;
                assert(marked[i] == v);
            }
        }
        lemma_unvisited_shrinks(n, base, marked, kid);
        lemma_walk_clean(g, kid, visited);
        lemma_walk_unfold(g, kid, visited);
        let first = walk(g, kid, visited);
        assert(first.0.contains(kid)) by {
            assert(first.0[first.0.len() - 1] == kid);
        }
        assert(held_by(visited, first.1));
        assert(held_by(base, first.1));
        assert(adjacent(g, x as int, kid as int));
        assert forall|i: int| 0 <= i < rest.len() implies !first.1.contains(#[trigger] rest[i])
            && g[x as int][rest[i] as int] != 0 by {
            assert(rest[i] == kids[i + 1]);
            if first.0.contains(rest[i]) {
                let j = choose|j: int| 0 <= j < first.0.len() && first.0[j] == rest[i];
                assert(tied(g, kid as int, first.0[j] as int, visited));
                let p = choose|p: Seq<int>| #[trigger]
                    is_trail(g, p, kid as int, rest[i] as int, visited, 0);
                assert(adjacent(g, x as int, rest[i] as int));
                assert forall|k: int| 0 <= k < p.len() implies #[trigger] p[k] != x as int by {
                    assert(!visited.contains(p[k] as i32));
                }
                assert(is_detour(g, x as int, p));
            }
        }
        assert(all_vertices(rest, n)) by {
            assert forall|i: int| 0 <= i < rest.len() implies 0 <= #[trigger] rest[i] < n by {
                assert(rest[i] == kids[i + 1]);
            }
        }
        assert(rest.no_duplicates()) by {
            assert forall|i: int, j: int| 0 <= i < rest.len() && 0 <= j < rest.len() && i
                != j implies rest[i] != rest[j] by {
                assert(rest[i] == kids[i + 1] && rest[j] == kids[j + 1]);
            }
        }
        lemma_walk_all_clean(g, x, rest, first.1, base);
        let more = walk_all(g, rest, first.1);
        let out = first.0 + more.0;
        let after = more.1;
        assert(walk_all(g, kids, visited) == (out, after));
        assert forall|v: i32| out.contains(v) <==> (first.0.contains(v) || more.0.contains(v)) by {
            if out.contains(v) {
                let i = choose|i: int| 0 <= i < out.len() && out[i] == v;
                if i < first.0.len() {
                    assert(first.0[i] == v);
                } else {
                    assert(more.0[i - first.0.len()] == v);
                }
            }
            if first.0.contains(v) {
                let i = choose|i: int| 0 <= i < first.0.len() && first.0[i] == v;
                assert(out[i] == v);
            }
            if more.0.contains(v) {
                let i = choose|i: int| 0 <= i < more.0.len() && more.0[i] == v;
                assert(out[i + first.0.len()] == v);
            }
        }
        assert(out.no_duplicates()) by {
            assert forall|i: int, j: int| 0 <= i < out.len() && 0 <= j < out.len() && i != j implies out[i]
                != out[j] by {
                let a = first.0.len() as int;
                if i < a && j < a {
                    assert(first.0[i] != first.0[j]);
                } else if i >= a && j >= a {
                    assert(more.0[i - a] != more.0[j - a]);
                } else if i < a {
                    assert(first.0.contains(first.0[i]));
                    assert(first.1.contains(first.0[i]));
                    assert(!first.1.contains(more.0[j - a]));
                } else {
                    assert(first.0.contains(first.0[j]));
                    assert(first.1.contains(first.0[j]));
                    assert(!first.1.contains(more.0[i - a]));
                }
            }
        }
        assert(all_vertices(out, n)) by {
            assert forall|i: int| 0 <= i < out.len() implies 0 <= #[trigger] out[i] < n by {
                if i < first.0.len() {
                    assert(out[i] == first.0[i]);
                } else {
                    assert(out[i] == more.0[i - first.0.len()]);
                }
            }
        }
        assert forall|i: int| 0 <= i < out.len() implies !visited.contains(#[trigger] out[i]) by {
            if i < first.0.len() {
                assert(!visited.contains(first.0[i]));
            } else {
                let y = more.0[i - first.0.len()];
                assert(!first.1.contains(y));
            }
        }
        assert forall|v: i32| #![trigger after.contains(v)] after.contains(v) <==> (
        visited.contains(v) || out.contains(v)) by {
            assert(after.contains(v) <==> (first.1.contains(v) || more.0.contains(v)));
            assert(first.1.contains(v) <==> (visited.contains(v) || first.0.contains(v)));
        }
        assert forall|i: int, b: int| 0 <= i < out.len() && #[trigger] adjacent(
            g,
            out[i] as int,
            b,
        ) implies after.contains(b as i32) by {
            if i < first.0.len() {
                assert(adjacent(g, first.0[i] as int, b));
                assert(first.1.contains(b as i32));
            } else {
                assert(adjacent(g, more.0[i - first.0.len()] as int, b));
            }
        }
        assert forall|i: int| 0 <= i < out.len() implies tied_below(
            g,
            x as int,
            (#[trigger] out[i]) as int,
            visited,
        ) by {
            if i < first.0.len() {
                let y = first.0[i] as int;
                assert(tied(g, kid as int, first.0[i] as int, visited));
                let q = choose|q: Seq<int>| #[trigger] is_trail(g, q, kid as int, y, visited, 0);
                let p = seq![x as int] + q;
                assert forall|j: int| 0 <= j < p.len() - 1 implies #[trigger] is_step(g, p, j) by {
                    if j > 0 {
                        assert(is_step(g, q, j - 1));
                    }
                }
                assert forall|j: int| 1 <= j < p.len() implies !visited.contains(
                    #[trigger] p[j] as i32,
                ) by {
                    assert(p[j] == q[j - 1]);
                }
                assert(is_trail(g, p, x as int, y, visited, 1));
            } else {
                let y = more.0[i - first.0.len()] as int;
                assert(tied_below(g, x as int, more.0[i - first.0.len()] as int, first.1));
                let p = choose|p: Seq<int>| #[trigger] is_trail(g, p, x as int, y, first.1, 1);
                lemma_trail_in_fewer(g, p, x as int, y, first.1, visited, 1);
            }
        }
        assert forall|i: int| 0 <= i < kids.len() implies out.contains(#[trigger] kids[i]) by {
            if i > 0 {
                assert(kids[i] == rest[i - 1]);
                assert(more.0.contains(rest[i - 1]));
            }
        }
    } else {
        assert(held_by(visited, visited));
    }
}

/// The walk of the spanning tree that selection builds visits every vertex of
/// the graph exactly once, whichever vertex it starts from.
pub proof fn lemma_tree_walk_visits_each_once(g: Seq<Seq<i32>>, edges: Seq<Edge>, root: i32)
    requires
        is_graph(g),
        is_prim_run(g, edges),
        edges.len() == edges_needed(g.len()),
        0 <= root < g.len(),
    ensures
        visits_each_once(walk(tree_cells(edges, g.len()), root, Seq::empty()).0, g.len()),
{
    let n = g.len();
    let tree = tree_cells(edges, n);
    let none = Seq::<i32>::empty();
    let out = walk(tree, root, none).0;
    let after = walk(tree, root, none).1;
    lemma_run_is_forest(g, edges);
    lemma_run_is_spanning_tree(g, edges);
    assert(is_graph(tree));
    lemma_walk_clean(tree, root, none);
    lemma_walk_unfold(tree, root, none);
    let inside = Set::new(|v: int| out.contains(v as i32));
    assert(out[out.len() - 1] == root);
    assert(inside.contains(root as int));
    assert forall|v: int| 0 <= v < n implies #[trigger] inside.contains(v) by {
        if !out.contains(v as i32) {
            assert(joined(tree, root as int, v));
            let p = choose|p: Seq<int>| #[trigger]
                is_path(tree, p) && p[0] == root as int && p[p.len() - 1] == v;
            let i = lemma_path_leaves(tree, p, inside, 0);
            lemma_path_in_range(tree, p, i);
            lemma_path_in_range(tree, p, i + 1);
            let j = choose|j: int| 0 <= j < out.len() && out[j] == p[i] as i32;
            assert(adjacent(tree, out[j] as int, p[i + 1]));
            assert(after.contains(p[i + 1] as i32));
        }
    }
    // as many entries as vertices
    let wide = Seq::new(out.len(), |i: int| out[i] as int);
    let all = set_int_range(0, n as int);
    assert(wide.no_duplicates());
    wide.unique_seq_to_set();
    vstd::seq_lib::seq_to_set_is_finite(wide);
    lemma_int_range(0, n as int);
    assert forall|v: int| all.contains(v) implies wide.to_set().contains(v) by {
        assert(inside.contains(v));
        let i = choose|i: int| 0 <= i < out.len() && out[i] == v as i32;
        assert(wide[i] == v);
    }
    assert forall|v: int| wide.to_set().contains(v) implies all.contains(v) by {
        let i = choose|i: int| 0 <= i < wide.len() && wide[i] == v;
        assert(0 <= out[i] < n);
    }
    assert(wide.to_set() =~= all);
}

/// A tour from the spanning tree of a connected graph never fails for want of
/// a vertex: the only error left is an edge that the original graph lacks.
pub proof fn lemma_tree_tour_reaches_all(
    g: Seq<Seq<i32>>,
    edges: Seq<Edge>,
    original: Seq<Seq<i32>>,
    root: i32,
)
    requires
        is_graph(g),
        is_prim_run(g, edges),
        edges.len() == edges_needed(g.len()),
        0 <= root < g.len(),
    ensures
        tour_outcome(tree_cells(edges, g.len()), original, root) != Err::<
            (Seq<i32>, int),
            GraphError,
        >(GraphError::UnreachableVertex),
{
    lemma_tree_walk_visits_each_once(g, edges, root);
}

} // verus!
