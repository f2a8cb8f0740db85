//! The depth-first walk of a tree matrix.
//!
//! A walk from a vertex marks the vertex, collects the neighbours that are not
//! yet marked, walks from each of them in ascending order, and lists the vertex
//! itself after everything that was reached through it.

use crate::graph::is_graph;
use std::collections::VecDeque;
use vstd::prelude::*;
use vstd::set_lib::{lemma_int_range, lemma_len_subset, set_int_range};

verus! {

/// The vertex numbers `0, 1, .., k - 1`.
pub open spec fn vertex_ids(k: nat) -> Seq<i32> {
    Seq::new(k, |i: int| i as i32)
}

/// `v` is a child of `node`: a neighbour in the matrix that is not yet visited.
pub open spec fn is_kid(g: Seq<Seq<i32>>, node: int, visited: Seq<i32>, v: i32) -> bool {
    g[node][v as int] != 0 && !visited.contains(v)
}

/// [`is_kid`] as a test on vertices.
pub open spec fn kid_test(g: Seq<Seq<i32>>, node: int, visited: Seq<i32>) -> spec_fn(i32) -> bool {
    |v: i32| is_kid(g, node, visited, v)
}

/// The children of `node`, in ascending order.
pub open spec fn kids_of(g: Seq<Seq<i32>>, node: int, visited: Seq<i32>) -> Seq<i32> {
    vertex_ids(g.len()).filter(kid_test(g, node, visited))
}

/// The vertices of `0..n` that the list of visited vertices does not hold.
pub open spec fn unvisited(n: nat, visited: Seq<i32>) -> Set<int> {
    Set::new(|v: int| 0 <= v < n && !visited.contains(v as i32))
}

/// The walk from `node` with a bound on its depth: the vertices in the order
/// in which the walk lists them, and the visited vertices after it.
///
/// A walk that still has depth left goes on into the children; one that has
/// none lists its vertex and stops. [`walk`] gives every walk the depth it needs.
pub open spec fn walk_fuel(g: Seq<Seq<i32>>, node: i32, visited: Seq<i32>, fuel: nat) -> (
    Seq<i32>,
    Seq<i32>,
)
    decreases fuel, 0nat,
{
    let marked = visited.push(node);
    if fuel == 0 {
        (seq![node], marked)
    } else {
        let below = walk_kids_fuel(g, kids_of(g, node as int, marked), marked, (fuel - 1) as nat);
        (below.0.push(node), below.1)
    }
}

/// The walks from each of `kids` in turn, one after the other, with a bound on
/// their depth.
pub open spec fn walk_kids_fuel(g: Seq<Seq<i32>>, kids: Seq<i32>, visited: Seq<i32>, fuel: nat) -> (
    Seq<i32>,
    Seq<i32>,
)
    decreases fuel, kids.len() + 1,
{
    if kids.len() == 0 {
        (Seq::empty(), visited)
    } else {
        let first = walk_fuel(g, kids[0], visited, fuel);
        let rest = walk_kids_fuel(g, kids.skip(1), first.1, fuel);
        (first.0 + rest.0, rest.1)
    }
}

/// The walk from `node`: the vertices in the order in which it lists them (each
/// after all that were reached through it), and the visited vertices after it.
///
/// The depth of a walk never exceeds the number of vertices that are unvisited
/// when it starts, which is the bound given here. [`lemma_walk_unfold`] states
/// the walk by its recursion.
pub open spec fn walk(g: Seq<Seq<i32>>, node: i32, visited: Seq<i32>) -> (Seq<i32>, Seq<i32>) {
    walk_fuel(g, node, visited, unvisited(g.len(), visited.push(node)).len())
}

/// The walks from each of `kids` in turn: what they list, one list after the
/// other, and the visited vertices after the last.
pub open spec fn walk_all(g: Seq<Seq<i32>>, kids: Seq<i32>, visited: Seq<i32>) -> (
    Seq<i32>,
    Seq<i32>,
)
    decreases kids.len(),
{
    if kids.len() == 0 {
        (Seq::empty(), visited)
    } else {
        let first = walk(g, kids[0], visited);
        let rest = walk_all(g, kids.skip(1), first.1);
        (first.0 + rest.0, rest.1)
    }
}

/// Every entry of a sequence is a vertex of a graph with `n` vertices.
pub open spec fn all_vertices(s: Seq<i32>, n: nat) -> bool {
    forall|i: int| 0 <= i < s.len() ==> 0 <= #[trigger] s[i] < n
}

/// Everything that `a` holds `b` holds too.
pub open spec fn held_by(a: Seq<i32>, b: Seq<i32>) -> bool {
    forall|x: i32| a.contains(x) ==> #[trigger] b.contains(x)
}

/// The unvisited vertices are finitely many, at most `n`.
pub proof fn lemma_unvisited_finite(n: nat, visited: Seq<i32>)
    ensures
        unvisited(n, visited).finite(),
        unvisited(n, visited).len() <= n,
{
    lemma_int_range(0, n as int);
    lemma_len_subset(unvisited(n, visited), set_int_range(0, n as int));
}

/// Visiting a vertex that was unvisited leaves fewer vertices unvisited,
/// whatever else is visited along with it.
pub proof fn lemma_unvisited_shrinks(n: nat, a: Seq<i32>, b: Seq<i32>, v: i32)
    requires
        held_by(a, b),
        0 <= v < n,
        !a.contains(v),
        b.contains(v),
    ensures
        unvisited(n, b).len() < unvisited(n, a).len(),
{
    lemma_unvisited_finite(n, a);
    lemma_unvisited_finite(n, b);
    let smaller = unvisited(n, a).remove(v as int);
    assert(unvisited(n, a).contains(v as int));
    assert forall|x: int| unvisited(n, b).contains(x) implies smaller.contains(x) by {
        if a.contains(x as i32) {
            assert(b.contains(x as i32));
        }
    }
    lemma_len_subset(unvisited(n, b), smaller);
}

/// The children of a vertex are vertices of the graph, neighbours of the
/// vertex and unvisited.
pub proof fn lemma_kids(g: Seq<Seq<i32>>, node: int, visited: Seq<i32>)
    requires
        is_graph(g),
    ensures
        all_vertices(kids_of(g, node, visited), g.len()),
        forall|i: int|
            0 <= i < kids_of(g, node, visited).len() ==> is_kid(
                g,
                node,
                visited,
                #[trigger] kids_of(g, node, visited)[i],
            ),
{
    let ids = vertex_ids(g.len());
    let test = kid_test(g, node, visited);
    let kids = kids_of(g, node, visited);
    assert forall|i: int| 0 <= i < kids.len() implies 0 <= #[trigger] kids[i] < g.len() && is_kid(
        g,
        node,
        visited,
        kids[i],
    ) by {
        assert(kids.contains(kids[i]));
        ids.lemma_filter_contains_rev(test, kids[i]);
        assert(test(kids[i]));
        assert(ids.contains(kids[i]));
        let j = choose|j: int| 0 <= j < ids.len() && ids[j] == kids[i];
        assert(ids[j] == j as i32);
    }
}

/// A sequence that starts with `a` holds everything that `a` holds.
proof fn lemma_prefix_held(a: Seq<i32>, b: Seq<i32>)
    requires
        a.is_prefix_of(b),
    ensures
        held_by(a, b),
{
    assert forall|x: i32| a.contains(x) implies #[trigger] b.contains(x) by {
        let i = choose|i: int| 0 <= i < a.len() && a[i] == x;
        assert(b.subrange(0, a.len() as int)[i] == x);
        assert(b[i] == x);
    }
}

/// With depth enough for the unvisited vertices, the walk from a vertex comes
/// out the same whatever the depth. It lists vertices of the graph only, and
/// the visited vertices after it start with those before it and the vertex.
proof fn lemma_walk_fuel(g: Seq<Seq<i32>>, node: i32, visited: Seq<i32>, f1: nat, f2: nat)
    requires
        is_graph(g),
        0 <= node < g.len(),
        f1 >= unvisited(g.len(), visited.push(node)).len(),
        f2 >= unvisited(g.len(), visited.push(node)).len(),
    ensures
        walk_fuel(g, node, visited, f1) == walk_fuel(g, node, visited, f2),
        visited.push(node).is_prefix_of(walk_fuel(g, node, visited, f1).1),
        all_vertices(walk_fuel(g, node, visited, f1).0, g.len()),
    decreases f1, 0nat,
{
    let n = g.len();
    let marked = visited.push(node);
    let kids = kids_of(g, node as int, marked);
    lemma_kids(g, node as int, marked);
    lemma_unvisited_finite(n, marked);
    if kids.len() > 0 {
        assert(is_kid(g, node as int, marked, kids[0]));
        assert(unvisited(n, marked).contains(kids[0] as int));
    }
    if f1 > 0 && f2 > 0 {
        assert(held_by(marked, marked));
        lemma_walk_kids_fuel(g, kids, marked, marked, (f1 - 1) as nat, (f2 - 1) as nat);
    } else {
        assert(kids.len() == 0);
        assert(seq![node] =~= Seq::<i32>::empty().push(node));
    }
}

/// The same for the walks from a list of children of one vertex, where `base`
/// is what was visited when the children were collected.
proof fn lemma_walk_kids_fuel(
    g: Seq<Seq<i32>>,
    kids: Seq<i32>,
    visited: Seq<i32>,
    base: Seq<i32>,
    f1: nat,
    f2: nat,
)
    requires
        is_graph(g),
        held_by(base, visited),
        all_vertices(kids, g.len()),
        forall|i: int| 0 <= i < kids.len() ==> !base.contains(#[trigger] kids[i]),
        f1 + 1 >= unvisited(g.len(), base).len(),
        f2 + 1 >= unvisited(g.len(), base).len(),
    ensures
        walk_kids_fuel(g, kids, visited, f1) == walk_kids_fuel(g, kids, visited, f2),
        walk_kids_fuel(g, kids, visited, f1) == walk_all(g, kids, visited),
        visited.is_prefix_of(walk_kids_fuel(g, kids, visited, f1).1),
        all_vertices(walk_kids_fuel(g, kids, visited, f1).0, g.len()),
    decreases f1, kids.len() + 1,
{
    let n = g.len();
    if kids.len() > 0 {
        let kid = kids[0];
        let marked = visited.push(kid);
        assert(!base.contains(kid));
        assert(marked[marked.len() - 1] == kid);
        assert forall|x: i32| base.contains(x) implies #[trigger] marked.contains(x) by {
            assert(visited.contains(x));
            let i = choose|i: int| 0 <= i < visited.len() && visited[i] == x;
            assert(marked[i] == x);
        }
        lemma_unvisited_shrinks(n, base, marked, kid);
        let exact = unvisited(n, marked).len();
        lemma_walk_fuel(g, kid, visited, f1, f2);
        lemma_walk_fuel(g, kid, visited, f1, exact);
        let first = walk_fuel(g, kid, visited, f1);
        lemma_prefix_held(marked, first.1);
        assert(held_by(base, first.1));
        let rest = kids.skip(1);
        assert forall|i: int| 0 <= i < rest.len() implies !base.contains(#[trigger] rest[i]) by {
            assert(rest[i] == kids[i + 1]);
        }
        assert(all_vertices(rest, n)) by {
            assert forall|i: int| 0 <= i < rest.len() implies 0 <= #[trigger] rest[i] < n by {
                assert(rest[i] == kids[i + 1]);
            }
        }
        lemma_walk_kids_fuel(g, rest, first.1, base, f1, f2);
        let after = walk_kids_fuel(g, rest, first.1, f1);
        assert(visited.is_prefix_of(after.1)) by {
            assert(visited =~= marked.subrange(0, visited.len() as int));
            assert(visited =~= after.1.subrange(0, visited.len() as int));
        }
    }
}

/// The walk from a vertex, stated by its recursion: mark the vertex, walk from
/// each unvisited neighbour in ascending order, then list the vertex.
pub proof fn lemma_walk_unfold(g: Seq<Seq<i32>>, node: i32, visited: Seq<i32>)
    requires
        is_graph(g),
        0 <= node < g.len(),
    ensures
        walk(g, node, visited) == ({
            let marked = visited.push(node);
            let below = walk_all(g, kids_of(g, node as int, marked), marked);
            (below.0.push(node), below.1)
        }),
        visited.push(node).is_prefix_of(walk(g, node, visited).1),
        all_vertices(walk(g, node, visited).0, g.len()),
        walk(g, node, visited).0.len() > 0,
        walk(g, node, visited).0.last() == node,
{
    let n = g.len();
    let marked = visited.push(node);
    let kids = kids_of(g, node as int, marked);
    let fuel = unvisited(n, marked).len();
    lemma_kids(g, node as int, marked);
    lemma_unvisited_finite(n, marked);
    lemma_walk_fuel(g, node, visited, fuel, fuel);
    if kids.len() > 0 {
        assert(is_kid(g, node as int, marked, kids[0]));
        assert(unvisited(n, marked).contains(kids[0] as int));
    }
    if fuel > 0 {
        assert(held_by(marked, marked));
        lemma_walk_kids_fuel(g, kids, marked, marked, (fuel - 1) as nat, (fuel - 1) as nat);
    } else {
        assert(seq![node] =~= Seq::<i32>::empty().push(node));
    }
}

/// Whether a list of visited vertices holds `v`.
fn has_visited(visiteds: &Vec<i32>, v: i32) -> (found: bool)
    ensures
        found == visiteds@.contains(v),
{
    let mut i: usize = 0;
    while i < visiteds.len()
        invariant
            i <= visiteds@.len(),
            forall|j: int| 0 <= j < i ==> visiteds@[j] != v,
        decreases visiteds@.len() - i,
    {
        if visiteds[i] == v {
            return true;
        }
        i += 1;
    }
    false
}

/// Collects the children of `node`: its neighbours in the matrix that are not
/// among the visited vertices, in ascending order. The visited vertices are
/// left as they are.
pub fn get_all_kids(node: i32, adjacency_matrix: &Vec<Vec<i32>>, visiteds: &mut Vec<i32>) -> (kids:
    VecDeque<i32>)
    requires
        is_graph(adjacency_matrix.deep_view()),
        0 <= node < adjacency_matrix@.len(),
    ensures
        kids@ == kids_of(adjacency_matrix.deep_view(), node as int, old(visiteds)@),
        final(visiteds)@ == old(visiteds)@,
{
    let ghost g = adjacency_matrix.deep_view();
    let ghost test = kid_test(g, node as int, visiteds@);
    let n = adjacency_matrix.len();
    let mut kids: VecDeque<i32> = VecDeque::new();
    let mut i: usize = 0;
    assert(vertex_ids(0).filter(test) =~= Seq::<i32>::empty());
    while i < n
        invariant
            i <= n,
            n == adjacency_matrix@.len(),
            g == adjacency_matrix.deep_view(),
            is_graph(g),
            0 <= node < n,
            visiteds@ == old(visiteds)@,
            test == kid_test(g, node as int, visiteds@),
            kids@ == vertex_ids(i as nat).filter(test),
        decreases n - i,
    {
        let v = i as i32;
        assert(g[node as int].len() == n);
        let weight = adjacency_matrix[node as usize][i];
        assert(weight == g[node as int][v as int]);
        let fresh = weight != 0 && !has_visited(visiteds, v);
        if fresh {
            kids.push_back(v);
        }
        proof {
            assert(vertex_ids((i + 1) as nat) =~= vertex_ids(i as nat).push(v));
            vertex_ids(i as nat).lemma_filter_push(v, test);
            assert(test(v) == fresh);
        }
        i += 1;
    }
    kids
}

/// Walks the tree from `node`, depth first.
///
/// The vertex is added to the visited vertices, then the walk goes on from
/// each of its children in turn. The result lists every vertex after all the
/// vertices reached through it, so `node` comes last; read backwards it is the
/// order in which the vertices were first reached.
pub fn get_aprox_path(node: i32, adjacency_matrix: &Vec<Vec<i32>>, visiteds: &mut Vec<i32>) -> (path:
    VecDeque<i32>)
    requires
        is_graph(adjacency_matrix.deep_view()),
        0 <= node < adjacency_matrix@.len(),
    ensures
        (path@, final(visiteds)@) == walk(adjacency_matrix.deep_view(), node, old(visiteds)@),
    decreases unvisited(adjacency_matrix.deep_view().len(), old(visiteds)@.push(node)).len(),
{
    let ghost g = adjacency_matrix.deep_view();
    let ghost n = g.len();
    visiteds.push(node);
    let ghost marked = visiteds@;
    let mut path: VecDeque<i32> = VecDeque::new();
    let mut kids = get_all_kids(node, adjacency_matrix, visiteds);
    let ghost all_kids = kids@;
    proof {
        lemma_kids(g, node as int, marked);
        lemma_walk_unfold(g, node, old(visiteds)@);
        assert(path@ + walk_all(g, kids@, visiteds@).0 =~= walk_all(g, all_kids, marked).0);
        assert(held_by(marked, visiteds@));
    }
    while kids.len() > 0
        invariant
            g == adjacency_matrix.deep_view(),
            n == g.len(),
            is_graph(g),
            0 <= node < n,
            marked == old(visiteds)@.push(node),
            held_by(marked, visiteds@),
            all_vertices(kids@, n),
            forall|i: int| 0 <= i < kids@.len() ==> !marked.contains(#[trigger] kids@[i]),
            path@ + walk_all(g, kids@, visiteds@).0 == walk_all(g, all_kids, marked).0,
            walk_all(g, kids@, visiteds@).1 == walk_all(g, all_kids, marked).1,
        decreases kids@.len(),
    {
        let ghost waiting = kids@;
        let ghost seen = visiteds@;
        let ghost done = path@;
        let kid = kids.pop_front().unwrap();
        proof {
            assert(kid == waiting[0]);
            assert(kids@ =~= waiting.skip(1));
            let next = seen.push(kid);
            assert(next[next.len() - 1] == kid);
            assert forall|x: i32| marked.contains(x) implies #[trigger] next.contains(x) by {
                assert(seen.contains(x));
                let i = choose|i: int| 0 <= i < seen.len() && seen[i] == x;
                assert(next[i] == x);
            }
            lemma_unvisited_shrinks(n, marked, next, kid);
            lemma_walk_unfold(g, kid, seen);
        }
        let mut below = get_aprox_path(kid, adjacency_matrix, visiteds);
        proof {
            lemma_prefix_held(seen.push(kid), visiteds@);
            assert(held_by(marked, visiteds@));
            assert forall|i: int| 0 <= i < kids@.len() implies 0 <= #[trigger] kids@[i] < n
                && !marked.contains(kids@[i]) by {
                assert(kids@[i] == waiting[i + 1]);
            }
            assert((done + below@) + walk_all(g, kids@, visiteds@).0 =~= done + (below@ + walk_all(
                g,
                kids@,
                visiteds@,
            ).0));
        }
        path.append(&mut below);
    }
    path.push_back(node);
    proof {
        assert(path@ =~= walk_all(g, all_kids, marked).0.push(node));
    }
    path
}

} // verus!
