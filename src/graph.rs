//! Extraction of the proximity graph from a triangulation given as a triangle
//! array and a halfedge array.
use vstd::prelude::*;
use crate::edge::{Pair, canonical, canonical_spec};

verus! {

/// The halfedge that follows halfedge `i` inside its triangle.
pub open spec fn next_halfedge_spec(i: int) -> int {
    if i % 3 == 2 {
        i - 2
    } else {
        i + 1
    }
}

/// Relies on delaunator::next_halfedge: `i - 2` for the last halfedge of a
/// triangle, `i + 1` otherwise (the addition would overflow on `usize::MAX`).
pub assume_specification[ delaunator::next_halfedge ](i: usize) -> (r: usize)
    requires
        i < usize::MAX,
    ensures
        r == next_halfedge_spec(i as int),
;

/// Relies on delaunator::EMPTY: the halfedge entry that marks a boundary edge,
/// which has no twin. The crate defines it as `usize::MAX`.
#[verifier::external_body]
pub(crate) fn boundary_marker() -> (r: usize)
    ensures
        r == usize::MAX,
{
    delaunator::EMPTY
}

/// Whether halfedge `i` is the one that stands for its geometric edge: a
/// boundary halfedge always is, of two twins the one with the larger index.
pub open spec fn emits(halfedges: Seq<usize>, i: int) -> bool {
    halfedges[i] == usize::MAX || i > halfedges[i]
}

/// The undirected edge that halfedge `i` runs along.
pub open spec fn halfedge_edge(triangles: Seq<usize>, i: int) -> Pair {
    canonical_spec(triangles[i], triangles[next_halfedge_spec(i)])
}

/// The edges that the first `n` halfedges contribute, in halfedge order.
pub open spec fn edges_upto(triangles: Seq<usize>, halfedges: Seq<usize>, n: int) -> Seq<Pair>
    decreases n,
{
    if n <= 0 {
        seq![]
    } else {
        let prev = edges_upto(triangles, halfedges, n - 1);
        if emits(halfedges, n - 1) {
            prev.push(halfedge_edge(triangles, n - 1))
        } else {
            prev
        }
    }
}

/// The proximity graph of a triangulation: one edge for each emitting halfedge.
pub open spec fn proximity_edges(triangles: Seq<usize>, halfedges: Seq<usize>) -> Seq<Pair> {
    edges_upto(triangles, halfedges, triangles.len() as int)
}

/// A triangulation whose halfedge array is consistent: twins are mutual and
/// distinct and bound the same edge, and two halfedges that bound the same
/// edge are twins.
pub open spec fn valid_triangulation(triangles: Seq<usize>, halfedges: Seq<usize>) -> bool {
    &&& triangles.len() == halfedges.len()
    &&& triangles.len() <= usize::MAX
    &&& triangles.len() % 3 == 0
    &&& forall|i: int|
        #![trigger halfedges[i]]
        0 <= i < halfedges.len() && halfedges[i] != usize::MAX ==> {
            &&& halfedges[i] < halfedges.len()
            &&& halfedges[i] != i
            &&& halfedges[halfedges[i] as int] == i
            &&& halfedge_edge(triangles, halfedges[i] as int) == halfedge_edge(triangles, i)
        }
    &&& forall|i: int, j: int|
        0 <= i < halfedges.len() && 0 <= j < halfedges.len() && i != j && halfedge_edge(
            triangles,
            i,
        ) == halfedge_edge(triangles, j) ==> halfedges[i] == j
}

/// Whether `e` is the edge of an emitting halfedge below `n`.
pub open spec fn emitted_below(triangles: Seq<usize>, halfedges: Seq<usize>, n: int, e: Pair) -> bool {
    exists|i: int| 0 <= i < n && emits(halfedges, i) && e == halfedge_edge(triangles, i)
}

/// Every element of `edges_upto(.., n)` comes from an emitting halfedge below
/// `n`, and every emitting halfedge below `n` gives an element.
proof fn lemma_edges_upto_members(triangles: Seq<usize>, halfedges: Seq<usize>, n: int)
    requires
        n >= 0,
    ensures
        forall|k: int|
            0 <= k < n && emits(halfedges, k) ==> edges_upto(triangles, halfedges, n).contains(
                halfedge_edge(triangles, k),
            ),
        forall|p: int|
            0 <= p < edges_upto(triangles, halfedges, n).len() ==> emitted_below(
                triangles,
                halfedges,
                n,
                #[trigger] edges_upto(triangles, halfedges, n)[p],
            ),
    decreases n,
{
    if n > 0 {
        lemma_edges_upto_members(triangles, halfedges, n - 1);
        let prev = edges_upto(triangles, halfedges, n - 1);
        let cur = edges_upto(triangles, halfedges, n);
        assert forall|k: int| 0 <= k < n && emits(halfedges, k) implies cur.contains(
            halfedge_edge(triangles, k),
        ) by {
            if k < n - 1 {
                let p = choose|p: int| 0 <= p < prev.len() && prev[p] == halfedge_edge(triangles, k);
                if emits(halfedges, n - 1) {
                    assert(cur[p] == prev[p]);
                }
            } else {
                assert(cur[cur.len() - 1] == halfedge_edge(triangles, k));
            }
        }
        assert forall|p: int| 0 <= p < cur.len() implies emitted_below(
            triangles,
            halfedges,
            n,
            #[trigger] cur[p],
        ) by {
            if p < prev.len() {
                let i = choose|i: int|
                    0 <= i < n - 1 && emits(halfedges, i) && prev[p] == halfedge_edge(triangles, i);
                assert(cur[p] == prev[p]);
                assert(0 <= i < n && emits(halfedges, i) && cur[p] == halfedge_edge(triangles, i));
            } else {
                assert(cur[p] == halfedge_edge(triangles, n - 1));
            }
        }
    } else {
        assert(edges_upto(triangles, halfedges, n) =~= Seq::<Pair>::empty());
    }
}

/// On a consistent triangulation no edge is emitted twice among the first `n`
/// halfedges.
proof fn lemma_edges_upto_distinct(triangles: Seq<usize>, halfedges: Seq<usize>, n: int)
    requires
        valid_triangulation(triangles, halfedges),
        0 <= n <= triangles.len(),
    ensures
        forall|p: int, q: int|
            0 <= p < q < edges_upto(triangles, halfedges, n).len() ==> edges_upto(
                triangles,
                halfedges,
                n,
            )[p] != edges_upto(triangles, halfedges, n)[q],
    decreases n,
{
    if n > 0 {
        lemma_edges_upto_distinct(triangles, halfedges, n - 1);
        lemma_edges_upto_members(triangles, halfedges, n - 1);
        let prev = edges_upto(triangles, halfedges, n - 1);
        let cur = edges_upto(triangles, halfedges, n);
        if emits(halfedges, n - 1) {
            let e = halfedge_edge(triangles, n - 1);
            assert forall|p: int| 0 <= p < prev.len() implies prev[p] != e by {
                let i = choose|i: int|
                    0 <= i < n - 1 && emits(halfedges, i) && prev[p] == halfedge_edge(triangles, i);
                if prev[p] == e {
                    assert(halfedges[i] == n - 1);
                    assert(halfedges[n - 1] == i);
                }
            }
            assert forall|p: int, q: int| 0 <= p < q < cur.len() implies cur[p] != cur[q] by {
                if q < prev.len() {
                    assert(cur[p] == prev[p] && cur[q] == prev[q]);
                } else {
                    assert(cur[p] == prev[p] && cur[q] == e);
                }
            }
        }
    }
}

/// Each geometric edge of a consistent triangulation is extracted exactly once:
/// the edge of every halfedge occurs in the proximity graph, every edge of the
/// graph is the edge of some halfedge, and no edge occurs twice.
pub proof fn lemma_each_edge_once(triangles: Seq<usize>, halfedges: Seq<usize>)
    requires
        valid_triangulation(triangles, halfedges),
    ensures
        forall|i: int|
            0 <= i < triangles.len() ==> proximity_edges(triangles, halfedges).contains(
                halfedge_edge(triangles, i),
            ),
        forall|p: int|
            #![trigger proximity_edges(triangles, halfedges)[p]]
            0 <= p < proximity_edges(triangles, halfedges).len() ==> exists|i: int|
                0 <= i < triangles.len() && proximity_edges(triangles, halfedges)[p]
                    == halfedge_edge(triangles, i),
        forall|p: int, q: int|
            0 <= p < q < proximity_edges(triangles, halfedges).len() ==> proximity_edges(
                triangles,
                halfedges,
            )[p] != proximity_edges(triangles, halfedges)[q],
{
    let n = triangles.len() as int;
    lemma_edges_upto_members(triangles, halfedges, n);
    lemma_edges_upto_distinct(triangles, halfedges, n);
    assert forall|i: int| 0 <= i < n implies proximity_edges(triangles, halfedges).contains(
        halfedge_edge(triangles, i),
    ) by {
        if !emits(halfedges, i) {
            let j = halfedges[i] as int;
            assert(halfedges[j] == i);
            assert(emits(halfedges, j));
        }
    }
}

/// Builds the proximity graph of a triangulation. Halfedge `i` belongs to
/// triangle `i / 3`, runs from `triangles[i]` to the next corner of that
/// triangle, and `halfedges[i]` is its twin or `usize::MAX` on the boundary.
/// Each pair of twins gives its edge once, through the larger index; each
/// boundary halfedge gives its edge once.
pub fn extract(triangles: &Vec<usize>, halfedges: &Vec<usize>) -> (r: Vec<Pair>)
    requires
        triangles.len() == halfedges.len(),
        triangles.len() % 3 == 0,
    ensures
        r@ == proximity_edges(triangles@, halfedges@),
{
    let empty = boundary_marker();
    let mut edges: Vec<Pair> = Vec::new();
    let n = triangles.len();
    let mut i: usize = 0;
    while i < n
        invariant
            n == triangles.len(),
            n == halfedges.len(),
            n % 3 == 0,
            empty == usize::MAX,
            i <= n,
            edges@ == edges_upto(triangles@, halfedges@, i as int),
        decreases n - i,
    {
        if i > halfedges[i] || halfedges[i] == empty {
            let next = delaunator::next_halfedge(i);
            edges.push(canonical(triangles[i], triangles[next]));
        }
        i += 1;
    }
    edges
}

} // verus!
