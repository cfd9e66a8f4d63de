//! The exhaustive search for the shortest closed tour.

use vstd::prelude::*;
use crate::grid::{calculate_edge_grid, distance_matrix, is_square};
use crate::point::Point;
use crate::order::{
    branches, completions, factorial, lemma_completions_count, lemma_factorial_positive,
    lemma_search_order, lemma_search_order_rises, search_order,
};
use crate::tour::{
    edge, in_range, is_tour, lemma_path_length_bound, lemma_precedes_one_way, path_length, precedes,
    tour_length,
};

verus! {

/// The running minimum of a search: the shortest complete tour met so far,
/// and its length.
#[derive(Debug, PartialEq, Eq)]
pub struct Best {
    pub length: u128,
    pub tour: Vec<usize>,
}

/// What a running minimum stands for: a length and the tour that has it.
pub struct Mark {
    pub length: int,
    pub tour: Seq<usize>,
}

impl View for Best {
    type V = Mark;

    open spec fn view(&self) -> Mark {
        Mark { length: self.length as int, tour: self.tour@ }
    }
}

impl Clone for Best {
    fn clone(&self) -> (copy: Best)
        ensures
            copy@ == self@,
    {
        Best { length: self.length, tour: self.tour.clone() }
    }
}

impl Best {
    /// The running minimum before any tour has been met: no tour, and a
    /// length above that of every tour.
    pub fn unknown() -> (best: Best)
        ensures
            best@ == (Mark { length: u128::MAX as int, tour: Seq::empty() }),
    {
        Best { length: u128::MAX, tour: Vec::new() }
    }
}

/// `tours[k]` is `mark`, and no tour before it in `tours` is as short.
pub open spec fn is_first_at(
    grid: Seq<Seq<u64>>,
    tours: Seq<Seq<usize>>,
    k: int,
    mark: Mark,
) -> bool {
    &&& 0 <= k < tours.len()
    &&& tours[k] == mark.tour
    &&& tour_length(grid, tours[k]) == mark.length
    &&& forall|j: int| 0 <= j < k ==> tour_length(grid, #[trigger] tours[j]) > mark.length
}

/// `after` is the running minimum that stood at `before` once `tours` have
/// been evaluated in order: it never rises, it is no longer than any of the
/// tours, and it changes only to the first of the tours that is shorter than
/// `before` and as short as any of them.
pub open spec fn improves(
    grid: Seq<Seq<u64>>,
    before: Mark,
    tours: Seq<Seq<usize>>,
    after: Mark,
) -> bool {
    &&& after.length <= before.length
    &&& forall|k: int|
        0 <= k < tours.len() ==> after.length <= tour_length(grid, #[trigger] tours[k])
    &&& {
        ||| after == before
        ||| after.length < before.length && exists|k: int| is_first_at(grid, tours, k, after)
    }
}

/// Evaluating `first` and then `second` is evaluating the two in a row.
pub proof fn lemma_improves_append(
    grid: Seq<Seq<u64>>,
    before: Mark,
    first: Seq<Seq<usize>>,
    between: Mark,
    second: Seq<Seq<usize>>,
    after: Mark,
)
    requires
        improves(grid, before, first, between),
        improves(grid, between, second, after),
    ensures
        improves(grid, before, first + second, after),
{
    let all = first + second;
    assert forall|k: int| 0 <= k < all.len() implies after.length <= tour_length(
        grid,
        #[trigger] all[k],
    ) by {
        if k < first.len() {
            assert(all[k] == first[k]);
        } else {
            assert(all[k] == second[k - first.len()]);
        }
    }
    if after == between {
        if between != before {
            let k = choose|k: int| is_first_at(grid, first, k, between);
            assert(all[k] == first[k]);
            assert forall|j: int| 0 <= j < k implies tour_length(grid, #[trigger] all[j])
                > after.length by {
                assert(all[j] == first[j]);
            }
            assert(is_first_at(grid, all, k, after));
        }
    } else {
        let k = choose|k: int| is_first_at(grid, second, k, after);
        let m = first.len() + k;
        assert(all[m] == second[k]);
        assert forall|j: int| 0 <= j < m implies tour_length(grid, #[trigger] all[j])
            > after.length by {
            if j < first.len() {
                assert(all[j] == first[j]);
            } else {
                assert(all[j] == second[j - first.len()]);
            }
        }
        assert(is_first_at(grid, all, m, after));
    }
}

/// The running minimum falls, or stays, with every tour that is evaluated:
/// after more tours it is no longer than it was after fewer.
pub proof fn lemma_running_minimum_falls(
    grid: Seq<Seq<u64>>,
    before: Mark,
    first: Seq<Seq<usize>>,
    between: Mark,
    second: Seq<Seq<usize>>,
    after: Mark,
)
    requires
        improves(grid, before, first, between),
        improves(grid, before, first + second, after),
    ensures
        after.length <= between.length <= before.length,
{
    if between != before {
        let k = choose|k: int| is_first_at(grid, first, k, between);
        assert((first + second)[k] == first[k]);
    }
}

/// The tours alone decide where the running minimum ends.
pub proof fn lemma_improves_unique(
    grid: Seq<Seq<u64>>,
    before: Mark,
    tours: Seq<Seq<usize>>,
    one: Mark,
    other: Mark,
)
    requires
        improves(grid, before, tours, one),
        improves(grid, before, tours, other),
    ensures
        one == other,
{
    if one != before {
        let k = choose|k: int| is_first_at(grid, tours, k, one);
        assert(other.length <= tour_length(grid, tours[k]));
        let m = choose|m: int| is_first_at(grid, tours, m, other);
        assert(one.length <= tour_length(grid, tours[m]));
        assert(k == m);
    } else if other != before {
        let m = choose|m: int| is_first_at(grid, tours, m, other);
        assert(one.length <= tour_length(grid, tours[m]));
    }
}

/// Adds up the length of the closed tour through `tour`, in its order, and
/// back to its first city.
pub fn tour_total(tour: &Vec<usize>, grid: &Vec<Vec<u64>>) -> (total: u128)
    requires
        tour@.len() >= 1,
        is_square(grid.deep_view(), grid@.len() as nat),
        in_range(tour@, grid@.len() as nat),
    ensures
        total == tour_length(grid.deep_view(), tour@),
        total < u128::MAX,
{
    let n = tour.len();
    let first_ix = tour[0];
    let last_ix = tour[n - 1];
    let ghost g = grid.deep_view();
    assert(g[last_ix as int] == grid@[last_ix as int].deep_view());
    let mut total: u128 = grid[last_ix][first_ix] as u128;
    assert(tour@.take(1).len() == 1);
    for i in 0..(n - 1)
        invariant
            n == tour@.len(),
            n >= 1,
            g == grid.deep_view(),
            is_square(g, grid@.len() as nat),
            in_range(tour@, grid@.len() as nat),
            total == edge(g, last_ix, first_ix) + path_length(g, tour@.take(i + 1)),
    {
        let a_city = tour[i];
        let b_city = tour[i + 1];
        proof {
            assert(g[a_city as int] == grid@[a_city as int].deep_view());
            let next = tour@.take(i + 2);
            assert(next.drop_last() =~= tour@.take(i + 1));
            lemma_path_length_bound(g, tour@.take(i + 1));
        }
        total += grid[a_city][b_city] as u128;
    }
    proof {
        assert(tour@.take(n as int) =~= tour@);
        lemma_path_length_bound(g, tour@);
    }
    total
}

/// Walks every way of completing the tour `visited` with the cities of
/// `pending`, in the order of `completions`, and returns the running minimum
/// `min` as it stands afterwards. Each branch is handed the minimum that the
/// branches before it left, and a tour replaces the minimum only when it is
/// strictly shorter.
pub fn traverse(visited: Vec<usize>, pending: Vec<usize>, min: Best, grid: &Vec<Vec<u64>>) -> (out:
    Best)
    requires
        visited@.len() >= 1,
        is_square(grid.deep_view(), grid@.len() as nat),
        in_range(visited@, grid@.len() as nat),
        in_range(pending@, grid@.len() as nat),
    ensures
        out.length <= min.length,
        improves(grid.deep_view(), min@, completions(visited@, pending@), out@),
    decreases pending@.len(),
{
    let ghost g = grid.deep_view();
    let ghost start = min@;
    if !pending.is_empty() {
        let mut best = min;
        for i in 0..pending.len()
            invariant
                visited@.len() >= 1,
                g == grid.deep_view(),
                is_square(g, grid@.len() as nat),
                in_range(visited@, grid@.len() as nat),
                in_range(pending@, grid@.len() as nat),
                improves(g, start, branches(visited@, pending@, i as nat), best@),
            decreases pending@.len() - i,
        {
            let ghost held = best@;
            let mut future_visit = visited.clone();
            future_visit.push(pending[i]);
            let mut future_available = pending.clone();
            future_available.remove(i);
            assert(future_visit@ == visited@.push(pending@[i as int]));
            assert(future_available@ == pending@.remove(i as int));
            best = traverse(future_visit, future_available, best, grid);
            proof {
                lemma_improves_append(
                    g,
                    start,
                    branches(visited@, pending@, i as nat),
                    held,
                    completions(visited@.push(pending@[i as int]), pending@.remove(i as int)),
                    best@,
                );
            }
        }
        best
    } else {
        let total_distance = tour_total(&visited, grid);
        assert(completions(visited@, pending@) == seq![visited@]);
        if total_distance < min.length {
            let out = Best { length: total_distance, tour: visited };
            assert(is_first_at(g, seq![visited@], 0, out@));
            out
        } else {
            min
        }
    }
}

/// `mark` is the shortest closed tour through the cities of `grid`, with its
/// length; of several shortest tours it is the first in the order of a
/// dictionary.
pub open spec fn is_shortest(grid: Seq<Seq<u64>>, mark: Mark) -> bool {
    &&& is_tour(mark.tour, grid.len())
    &&& mark.length == tour_length(grid, mark.tour)
    &&& forall|tour: Seq<usize>| #[trigger]
        is_tour(tour, grid.len()) ==> mark.length <= tour_length(grid, tour)
    &&& forall|tour: Seq<usize>| #[trigger]
        is_tour(tour, grid.len()) && tour_length(grid, tour) == mark.length && tour != mark.tour
            ==> precedes(mark.tour, tour)
}

/// A table of weights has one shortest tour in the sense of `is_shortest`:
/// whatever finds it, and however often, finds the same tour and the same
/// length.
pub proof fn lemma_shortest_unique(grid: Seq<Seq<u64>>, one: Mark, other: Mark)
    requires
        is_shortest(grid, one),
        is_shortest(grid, other),
    ensures
        one == other,
{
    assert(one.length <= tour_length(grid, other.tour));
    assert(other.length <= tour_length(grid, one.tour));
    if one.tour != other.tour {
        assert(precedes(one.tour, other.tour));
        assert(precedes(other.tour, one.tour));
        lemma_precedes_one_way(one.tour, other.tour);
    }
}

/// Finds the shortest closed tour through all the cities of `grid`, a
/// square table of edge weights, by trying every tour that starts at
/// city 0. Of several shortest tours the one that the search evaluates
/// first is returned, which is the first in the order of a dictionary.
pub fn brute_force(grid: Vec<Vec<u64>>) -> (best: Best)
    requires
        grid@.len() >= 1,
        is_square(grid.deep_view(), grid@.len() as nat),
    ensures
        is_shortest(grid.deep_view(), best@),
        exists|k: int| is_first_at(grid.deep_view(), search_order(grid@.len() as nat), k, best@),
{
    let n = grid.len();
    let mut visited: Vec<usize> = Vec::new();
    visited.push(0);
    let mut pending: Vec<usize> = Vec::new();
    let mut city: usize = 1;
    while city < n
        invariant
            1 <= city <= n,
            pending@ == Seq::new((city - 1) as nat, |i: int| (i + 1) as usize),
        decreases n - city,
    {
        pending.push(city);
        city += 1;
    }
    assert(visited@ == seq![0usize]);
    let best = traverse(visited, pending, Best::unknown(), &grid);
    proof {
        let g = grid.deep_view();
        let tours = search_order(n as nat);
        lemma_search_order(n as nat);
        lemma_factorial_positive((n - 1) as nat);
        lemma_path_length_bound(g, tours[0]);
        assert(is_tour(tours[0], n as nat));
        assert(best.length <= tour_length(g, tours[0]));
        let k = choose|k: int| is_first_at(g, tours, k, best@);
        assert(is_tour(tours[k], n as nat));
        assert forall|tour: Seq<usize>| #[trigger] is_tour(tour, n as nat) implies best.length
            <= tour_length(g, tour) && (tour_length(g, tour) == best.length && tour != best.tour@
            ==> precedes(best.tour@, tour)) by {
            assert(tours.contains(tour));
            let at = choose|at: int| 0 <= at < tours.len() && tours[at] == tour;
            assert(best.length <= tour_length(g, tours[at]));
            if tour_length(g, tour) == best.length && tour != best.tour@ {
                lemma_search_order_rises(n as nat, k, at);
            }
        }
    }
    best
}

/// Finds the shortest closed tour through the given cities, with distances
/// as `distance_matrix` has them. Without cities there is no tour.
pub fn shortest_tour(points: Vec<Point>) -> (found: Option<Best>)
    ensures
        found is None <==> points@.len() == 0,
        found matches Some(best) ==> is_shortest(distance_matrix(points@), best@),
{
    if points.len() == 0 {
        None
    } else {
        let grid = calculate_edge_grid(points);
        Some(brute_force(grid))
    }
}

/// Lists the complete tours that `traverse` evaluates from the state
/// `(visited, pending)`, in the order in which it evaluates them.
pub fn complete_tours(visited: Vec<usize>, pending: Vec<usize>) -> (tours: Vec<Vec<usize>>)
    ensures
        tours.deep_view() == completions(visited@, pending@),
        tours@.len() == factorial(pending@.len()),
    decreases pending@.len(),
{
    proof {
        lemma_completions_count(visited@, pending@);
    }
    let mut tours: Vec<Vec<usize>> = Vec::new();
    if pending.is_empty() {
        tours.push(visited);
        assert(tours.deep_view() =~= seq![visited@]) by {
            assert(tours@[0].deep_view() =~= visited@);
        }
    } else {
        assert(tours.deep_view() =~= Seq::<Seq<usize>>::empty());
        for i in 0..pending.len()
            invariant
                tours.deep_view() == branches(visited@, pending@, i as nat),
        {
            let ghost before = tours.deep_view();
            let mut future_visit = visited.clone();
            future_visit.push(pending[i]);
            let mut future_available = pending.clone();
            future_available.remove(i);
            assert(future_visit@ == visited@.push(pending@[i as int]));
            assert(future_available@ == pending@.remove(i as int));
            let mut found = complete_tours(future_visit, future_available);
            let ghost added = found.deep_view();
            tours.append(&mut found);
            assert(tours.deep_view() =~= before + added);
        }
    }
    tours
}

} // verus!
