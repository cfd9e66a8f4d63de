//! Closed tours and their lengths.

use vstd::prelude::*;

verus! {

/// Every city of `cities` is one of the first `n`.
pub open spec fn in_range(cities: Seq<usize>, n: nat) -> bool {
    forall|i: int| 0 <= i < cities.len() ==> (#[trigger] cities[i]) < n
}

/// A closed tour of `n` cities: it starts at the anchor, city 0, and visits
/// every city exactly once.
pub open spec fn is_tour(tour: Seq<usize>, n: nat) -> bool {
    &&& tour.len() == n
    &&& n >= 1
    &&& tour[0] == 0
    &&& in_range(tour, n)
    &&& tour.no_duplicates()
}

/// The weight of the edge from city `a` to city `b`.
pub open spec fn edge(grid: Seq<Seq<u64>>, a: usize, b: usize) -> int {
    grid[a as int][b as int] as int
}

/// The sum of the weights of the edges between neighbours in `path`.
pub open spec fn path_length(grid: Seq<Seq<u64>>, path: Seq<usize>) -> int
    decreases path.len(),
{
    if path.len() <= 1 {
        0
    } else {
        path_length(grid, path.drop_last()) + edge(grid, path[path.len() - 2], path.last())
    }
}

/// The length of the closed tour: the path through all its cities, and the
/// edge from the last of them back to the first.
pub open spec fn tour_length(grid: Seq<Seq<u64>>, tour: Seq<usize>) -> int {
    path_length(grid, tour) + edge(grid, tour.last(), tour[0])
}

/// A path is no longer than as many full-weight edges as it has cities.
pub proof fn lemma_path_length_bound(grid: Seq<Seq<u64>>, path: Seq<usize>)
    ensures
        0 <= path_length(grid, path) <= path.len() * u64::MAX,
    decreases path.len(),
{
    if path.len() > 1 {
        lemma_path_length_bound(grid, path.drop_last());
    }
}

/// `a` comes before `b` in the order of a dictionary: where the two first
/// differ, `a` has the smaller city.
pub open spec fn precedes(a: Seq<usize>, b: Seq<usize>) -> bool {
    exists|d: int|
        0 <= d < a.len() && d < b.len() && a.take(d) == b.take(d) && #[trigger] a[d] < b[d]
}

/// Of two sequences, at most one comes before the other.
pub proof fn lemma_precedes_one_way(a: Seq<usize>, b: Seq<usize>)
    requires
        precedes(a, b),
    ensures
        !precedes(b, a),
        a != b,
{
    let d = choose|d: int|
        0 <= d < a.len() && d < b.len() && a.take(d) == b.take(d) && #[trigger] a[d] < b[d];
    if precedes(b, a) {
        let e = choose|e: int|
            0 <= e < b.len() && e < a.len() && b.take(e) == a.take(e) && #[trigger] b[e] < a[e];
        if d < e {
            assert(b.take(e)[d] == a.take(e)[d]);
        } else if e < d {
            assert(a.take(d)[e] == b.take(d)[e]);
        }
    }
}

} // verus!
