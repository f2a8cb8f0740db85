//! The edge model: a candidate edge of an undirected weighted graph.

use std::cmp::Ordering;
use vstd::prelude::*;

verus! {

/// An undirected edge between the vertices `src` and `dst`.
///
/// Edges taken from a matrix always have `src < dst`, so that each pair of
/// vertices is represented once.
#[derive(Clone, Copy, Debug)]
pub struct Edge {
    pub src: u32,
    pub dst: u32,
    pub weight: i32,
}

/// Two edges are equal as far as `==` is concerned when they weigh the same.
impl PartialEq for Edge {
    fn eq(&self, other: &Self) -> (r: bool) {
        self.weight == other.weight
    }
}

impl vstd::std_specs::cmp::PartialEqSpecImpl for Edge {
    open spec fn obeys_eq_spec() -> bool {
        true
    }

    open spec fn eq_spec(&self, other: &Self) -> bool {
        self.weight == other.weight
    }
}

impl Eq for Edge {

}

/// Edges are ordered by weight alone.
impl PartialOrd for Edge {
    fn partial_cmp(&self, other: &Self) -> (r: Option<Ordering>) {
        if self.weight < other.weight {
            Some(Ordering::Less)
        } else if self.weight == other.weight {
            Some(Ordering::Equal)
        } else {
            Some(Ordering::Greater)
        }
    }
}

impl vstd::std_specs::cmp::PartialOrdSpecImpl for Edge {
    open spec fn obeys_partial_cmp_spec() -> bool {
        true
    }

    open spec fn partial_cmp_spec(&self, other: &Self) -> Option<Ordering> {
        if self.weight < other.weight {
            Some(Ordering::Less)
        } else if self.weight == other.weight {
            Some(Ordering::Equal)
        } else {
            Some(Ordering::Greater)
        }
    }
}

impl Edge {
    /// The order in which a queue hands edges out: lighter edges first, and
    /// among edges of one weight the one with the smaller `(src, dst)` first.
    ///
    /// This refines the order by weight into a total order on edges, so that
    /// the least edge of a set is unique.
    pub open spec fn precedes(self, other: Edge) -> bool {
        ||| self.weight < other.weight
        ||| self.weight == other.weight && self.src < other.src
        ||| self.weight == other.weight && self.src == other.src && self.dst <= other.dst
    }

    /// Whether the edge has `v` as one of its endpoints.
    pub open spec fn touches(self, v: int) -> bool {
        self.src == v || self.dst == v
    }

    /// Whether the edge runs between `a` and `b`, in either direction.
    pub open spec fn links(self, a: int, b: int) -> bool {
        (self.src == a && self.dst == b) || (self.src == b && self.dst == a)
    }

    /// Decides [`Edge::precedes`].
    pub fn comes_before(&self, other: &Edge) -> (r: bool)
        ensures
            r == self.precedes(*other),
    {
        if self.weight != other.weight {
            self.weight < other.weight
        } else if self.src != other.src {
            self.src < other.src
        } else {
            self.dst <= other.dst
        }
    }
}

/// `precedes` is a total order: any two edges compare, two edges that precede
/// each other are the same edge, and the relation is transitive.
pub proof fn lemma_precedes_total_order(a: Edge, b: Edge, c: Edge)
    ensures
        a.precedes(b) || b.precedes(a),
        a.precedes(b) && b.precedes(a) ==> a == b,
        a.precedes(b) && b.precedes(c) ==> a.precedes(c),
        a.precedes(b) ==> a.weight <= b.weight,
{
}

} // verus!
