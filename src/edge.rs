//! Undirected pairs of particle indices.
use vstd::prelude::*;

verus! {

/// An undirected edge between two particle indices, written with the smaller
/// index first.
pub type Pair = (usize, usize);

/// The canonical form of the unordered pair `{a, b}`.
pub open spec fn canonical_spec(a: usize, b: usize) -> Pair {
    if a <= b {
        (a, b)
    } else {
        (b, a)
    }
}

/// Whether `p` is already in canonical form.
pub open spec fn is_canonical(p: Pair) -> bool {
    p.0 <= p.1
}

/// Orders the two ends of an undirected edge, so that `{a, b}` and `{b, a}`
/// give the same pair.
pub fn canonical(a: usize, b: usize) -> (r: Pair)
    ensures
        r == canonical_spec(a, b),
        is_canonical(r),
{
    if a <= b {
        (a, b)
    } else {
        (b, a)
    }
}

} // verus!
