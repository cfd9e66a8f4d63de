//! The order in which the search meets the complete tours.

use vstd::prelude::*;
use crate::tour::{in_range, is_tour, precedes};

verus! {

/// The number of orderings of `n` things.
pub open spec fn factorial(n: nat) -> nat
    decreases n,
{
    if n == 0 {
        1
    } else {
        n * factorial((n - 1) as nat)
    }
}

/// The complete tours that the search evaluates from the state
/// `(visited, pending)`, in the order in which it evaluates them.
pub open spec fn completions(visited: Seq<usize>, pending: Seq<usize>) -> Seq<Seq<usize>>
    decreases pending.len(), pending.len() + 1,
{
    if pending.len() == 0 {
        seq![visited]
    } else {
        branches(visited, pending, pending.len())
    }
}

/// The complete tours that the search evaluates from `(visited, pending)`
/// while it commits the first `k` pending cities in turn.
pub open spec fn branches(visited: Seq<usize>, pending: Seq<usize>, k: nat) -> Seq<Seq<usize>>
    decreases pending.len(), k,
{
    if k == 0 || k > pending.len() {
        Seq::empty()
    } else {
        branches(visited, pending, (k - 1) as nat) + completions(
            visited.push(pending[k - 1]),
            pending.remove(k - 1),
        )
    }
}

/// The cities `1, 2, ..., n - 1` in rising order: what is pending when only
/// the anchor has been visited.
pub open spec fn cities_after_anchor(n: nat) -> Seq<usize> {
    Seq::new((n - 1) as nat, |i: int| (i + 1) as usize)
}

/// The complete tours of `n` cities in the order in which the search
/// evaluates them: city 0 is visited, and the others are pending in rising
/// order.
pub open spec fn search_order(n: nat) -> Seq<Seq<usize>> {
    completions(seq![0usize], cities_after_anchor(n))
}

/// `tour` completes `visited` with the cities of `pending`: it begins with
/// `visited` and goes on with as many cities as are pending, each of them
/// pending and none of them twice.
pub open spec fn completes(tour: Seq<usize>, visited: Seq<usize>, pending: Seq<usize>) -> bool {
    let rest = tour.skip(visited.len() as int);
    &&& tour.len() == visited.len() + pending.len()
    &&& tour.take(visited.len() as int) == visited
    &&& rest.no_duplicates()
    &&& forall|j: int| 0 <= j < rest.len() ==> pending.contains(#[trigger] rest[j])
}

/// A state of the search over `n` cities: the cities visited so far, in
/// order and with the anchor in front, and the cities still pending. Between
/// them they hold every city, and none of them twice.
pub open spec fn is_state(visited: Seq<usize>, pending: Seq<usize>, n: nat) -> bool {
    &&& visited.len() >= 1
    &&& visited[0] == 0
    &&& visited.len() + pending.len() == n
    &&& in_range(visited + pending, n)
    &&& (visited + pending).no_duplicates()
    &&& forall|city: usize| city < n ==> #[trigger] (visited + pending).contains(city)
}

/// Each city of `cities` is smaller than the next.
pub open spec fn rising(cities: Seq<usize>) -> bool {
    forall|i: int, j: int| 0 <= i < j < cities.len() ==> cities[i] < cities[j]
}

/// There is at least one ordering of any number of things.
pub proof fn lemma_factorial_positive(n: nat)
    ensures
        factorial(n) >= 1,
    decreases n,
{
    if n > 0 {
        lemma_factorial_positive((n - 1) as nat);
        assert(n * factorial((n - 1) as nat) >= 1) by (nonlinear_arith)
            requires
                n >= 1,
                factorial((n - 1) as nat) >= 1,
        ;
    }
}

/// The search evaluates `factorial(pending.len())` complete tours.
pub proof fn lemma_completions_count(visited: Seq<usize>, pending: Seq<usize>)
    ensures
        completions(visited, pending).len() == factorial(pending.len()),
    decreases pending.len(), pending.len() + 1,
{
    if pending.len() > 0 {
        lemma_branches_count(visited, pending, pending.len());
    }
}

/// Each of the first `k` branches holds as many tours as the cities that
/// remain can be ordered.
pub proof fn lemma_branches_count(visited: Seq<usize>, pending: Seq<usize>, k: nat)
    requires
        k <= pending.len(),
    ensures
        branches(visited, pending, k).len() == k * factorial((pending.len() - 1) as nat),
    decreases pending.len(), k,
{
    let f = factorial((pending.len() - 1) as nat);
    if k > 0 {
        lemma_branches_count(visited, pending, (k - 1) as nat);
        lemma_completions_count(visited.push(pending[k - 1]), pending.remove(k - 1));
        assert(k * f == (k - 1) * f + f) by (nonlinear_arith);
    } else {
        assert(0 * f == 0) by (nonlinear_arith);
    }
}

/// What is left when one city is taken out was there before; and where no
/// city stood twice, the city taken out is not left.
proof fn lemma_left_was_there(cities: Seq<usize>, i: int, city: usize)
    requires
        0 <= i < cities.len(),
        cities.remove(i).contains(city),
    ensures
        cities.contains(city),
        cities.no_duplicates() ==> city != cities[i],
{
    let left = cities.remove(i);
    let m = choose|m: int| 0 <= m < left.len() && left[m] == city;
    assert(left[m] == cities[if m < i { m } else { m + 1 }]);
}

/// Every city but the one taken out is left.
proof fn lemma_others_are_left(cities: Seq<usize>, i: int, m: int)
    requires
        0 <= i < cities.len(),
        0 <= m < cities.len(),
        cities[m] != cities[i],
    ensures
        cities.remove(i).contains(cities[m]),
{
    assert(cities.remove(i)[if m < i { m } else { m - 1 }] == cities[m]);
}

/// Rising cities still rise when one of them is taken out.
proof fn lemma_left_rising(cities: Seq<usize>, i: int)
    requires
        0 <= i < cities.len(),
        rising(cities),
    ensures
        rising(cities.remove(i)),
        cities.no_duplicates(),
{
    let left = cities.remove(i);
    assert forall|x: int, y: int| 0 <= x < y < left.len() implies left[x] < left[y] by {
        assert(left[x] == cities[if x < i { x } else { x + 1 }]);
        assert(left[y] == cities[if y < i { y } else { y + 1 }]);
    }
}

/// A tour that completes the state reached by committing the pending city
/// at index `i` completes the state before it.
proof fn lemma_completes_before(
    tour: Seq<usize>,
    visited: Seq<usize>,
    pending: Seq<usize>,
    i: int,
)
    requires
        0 <= i < pending.len(),
        pending.no_duplicates(),
        completes(tour, visited.push(pending[i]), pending.remove(i)),
    ensures
        completes(tour, visited, pending),
        tour[visited.len() as int] == pending[i],
{
    let v = visited.len() as int;
    let longer = visited.push(pending[i]);
    let rest = tour.skip(v);
    let tail = tour.skip(v + 1);
    assert(tour.take(v + 1)[v] == longer[v]);
    assert(tour.take(v) =~= visited) by {
        assert forall|j: int| 0 <= j < v implies tour.take(v)[j] == visited[j] by {
            assert(tour.take(v + 1)[j] == longer[j]);
        }
    }
    assert forall|j: int| 0 < j < rest.len() implies pending.contains(#[trigger] rest[j])
        && rest[j] != rest[0] by {
        assert(rest[j] == tail[j - 1]);
        lemma_left_was_there(pending, i, tail[j - 1]);
    }
    assert forall|a: int, b: int| 0 < a < b < rest.len() implies rest[a] != rest[b] by {
        assert(rest[a] == tail[a - 1]);
        assert(rest[b] == tail[b - 1]);
    }
}

/// A tour that completes a state with cities pending completes the state
/// reached by committing the city that it visits next. Returns the index
/// of that city among the pending ones.
proof fn lemma_completes_after(tour: Seq<usize>, visited: Seq<usize>, pending: Seq<usize>) -> (i:
    int)
    requires
        pending.len() > 0,
        completes(tour, visited, pending),
    ensures
        0 <= i < pending.len(),
        pending[i] == tour[visited.len() as int],
        completes(tour, visited.push(pending[i]), pending.remove(i)),
{
    let v = visited.len() as int;
    let rest = tour.skip(v);
    let tail = tour.skip(v + 1);
    assert(rest[0] == tour[v]);
    assert(pending.contains(rest[0]));
    let i = choose|i: int| 0 <= i < pending.len() && pending[i] == rest[0];
    let longer = visited.push(pending[i]);
    assert(tour.take(v + 1) =~= longer) by {
        assert forall|j: int| 0 <= j < v + 1 implies tour.take(v + 1)[j] == longer[j] by {
            if j < v {
                assert(tour.take(v)[j] == visited[j]);
            }
        }
    }
    assert forall|j: int| 0 <= j < tail.len() implies pending.remove(i).contains(
        #[trigger] tail[j],
    ) by {
        assert(tail[j] == rest[j + 1]);
        assert(pending.contains(rest[j + 1]));
        let m = choose|m: int| 0 <= m < pending.len() && pending[m] == rest[j + 1];
        lemma_others_are_left(pending, i, m);
    }
    assert forall|a: int, b: int| 0 <= a < b < tail.len() implies tail[a] != tail[b] by {
        assert(tail[a] == rest[a + 1]);
        assert(tail[b] == rest[b + 1]);
    }
    i
}

/// Where the tours of one branch stand among those of the branches: the
/// tours reached through the pending city at index `i` follow those of the
/// branches before it, in their own order.
proof fn lemma_branches_index(visited: Seq<usize>, pending: Seq<usize>, m: nat, i: int, k: int)
    requires
        0 <= i < m <= pending.len(),
        0 <= k < completions(visited.push(pending[i]), pending.remove(i)).len(),
    ensures
        0 <= branches(visited, pending, i as nat).len() + k < branches(visited, pending, m).len(),
        branches(visited, pending, m)[branches(visited, pending, i as nat).len() + k]
            == completions(visited.push(pending[i]), pending.remove(i))[k],
    decreases m,
{
    if i < m - 1 {
        lemma_branches_index(visited, pending, (m - 1) as nat, i, k);
    }
}

/// Every tour among those of the first `m` branches belongs to one of
/// them. Returns the index of the pending city that the branch commits, and
/// the place of the tour among the tours of that branch.
proof fn lemma_branches_origin(visited: Seq<usize>, pending: Seq<usize>, m: nat, at: int) -> (r: (
    int,
    int,
))
    requires
        m <= pending.len(),
        0 <= at < branches(visited, pending, m).len(),
    ensures
        0 <= r.0 < m,
        0 <= r.1 < completions(visited.push(pending[r.0]), pending.remove(r.0)).len(),
        at == branches(visited, pending, r.0 as nat).len() + r.1,
        branches(visited, pending, m)[at] == completions(
            visited.push(pending[r.0]),
            pending.remove(r.0),
        )[r.1],
    decreases m,
{
    let before = branches(visited, pending, (m - 1) as nat);
    if at < before.len() {
        lemma_branches_origin(visited, pending, (m - 1) as nat, at)
    } else {
        (m - 1, at - before.len())
    }
}

/// Every tour that the search evaluates completes the state it started
/// from.
pub proof fn lemma_completions_sound(visited: Seq<usize>, pending: Seq<usize>, k: int)
    requires
        pending.no_duplicates(),
        0 <= k < completions(visited, pending).len(),
    ensures
        completes(completions(visited, pending)[k], visited, pending),
    decreases pending.len(),
{
    if pending.len() == 0 {
        assert(visited.take(visited.len() as int) =~= visited);
    } else {
        let (i, at) = lemma_branches_origin(visited, pending, pending.len(), k);
        lemma_completions_sound(visited.push(pending[i]), pending.remove(i), at);
        lemma_completes_before(completions(visited, pending)[k], visited, pending, i);
    }
}

/// Every tour that completes a state is among those that the search
/// evaluates from it. Returns its place among them.
pub proof fn lemma_completions_complete(
    tour: Seq<usize>,
    visited: Seq<usize>,
    pending: Seq<usize>,
) -> (k: int)
    requires
        completes(tour, visited, pending),
    ensures
        0 <= k < completions(visited, pending).len(),
        completions(visited, pending)[k] == tour,
    decreases pending.len(),
{
    if pending.len() == 0 {
        assert(tour.take(visited.len() as int) =~= tour);
        0
    } else {
        let i = lemma_completes_after(tour, visited, pending);
        let at = lemma_completions_complete(tour, visited.push(pending[i]), pending.remove(i));
        lemma_branches_index(visited, pending, pending.len(), i, at);
        branches(visited, pending, i as nat).len() + at
    }
}

/// The search evaluates no tour twice.
pub proof fn lemma_completions_distinct(visited: Seq<usize>, pending: Seq<usize>, a: int, b: int)
    requires
        pending.no_duplicates(),
        0 <= a < completions(visited, pending).len(),
        0 <= b < completions(visited, pending).len(),
        a != b,
    ensures
        completions(visited, pending)[a] != completions(visited, pending)[b],
    decreases pending.len(),
{
    if pending.len() > 0 {
        let (i, at) = lemma_branches_origin(visited, pending, pending.len(), a);
        let (j, bt) = lemma_branches_origin(visited, pending, pending.len(), b);
        if i == j {
            lemma_completions_distinct(visited.push(pending[i]), pending.remove(i), at, bt);
        } else {
            lemma_completions_sound(visited.push(pending[i]), pending.remove(i), at);
            lemma_completions_sound(visited.push(pending[j]), pending.remove(j), bt);
            lemma_completes_before(completions(visited, pending)[a], visited, pending, i);
            lemma_completes_before(completions(visited, pending)[b], visited, pending, j);
        }
    }
}

/// Where the pending cities rise, the search evaluates the tours in the
/// order of a dictionary.
pub proof fn lemma_completions_rise(visited: Seq<usize>, pending: Seq<usize>, a: int, b: int)
    requires
        rising(pending),
        0 <= a < b < completions(visited, pending).len(),
    ensures
        precedes(completions(visited, pending)[a], completions(visited, pending)[b]),
    decreases pending.len(),
{
    if pending.len() > 0 {
        let v = visited.len() as int;
        let one = completions(visited, pending)[a];
        let other = completions(visited, pending)[b];
        let (i, at) = lemma_branches_origin(visited, pending, pending.len(), a);
        let (j, bt) = lemma_branches_origin(visited, pending, pending.len(), b);
        lemma_left_rising(pending, i);
        lemma_left_rising(pending, j);
        if i == j {
            lemma_completions_rise(visited.push(pending[i]), pending.remove(i), at, bt);
        } else {
            if j < i {
                lemma_branches_index(visited, pending, i as nat, j, bt);
            }
            lemma_completions_sound(visited.push(pending[i]), pending.remove(i), at);
            lemma_completions_sound(visited.push(pending[j]), pending.remove(j), bt);
            lemma_completes_before(one, visited, pending, i);
            lemma_completes_before(other, visited, pending, j);
            assert(one.take(v) == other.take(v));
            assert(one[v] < other[v]);
        }
    }
}

/// The search starts from a state: the anchor is visited, and the cities
/// after it are pending.
pub proof fn lemma_state_at_start(n: nat)
    requires
        1 <= n <= usize::MAX,
    ensures
        is_state(seq![0usize], cities_after_anchor(n), n),
{
    let all = seq![0usize] + cities_after_anchor(n);
    assert forall|i: int| 0 <= i < all.len() implies #[trigger] all[i] == i by {
        if i > 0 {
            assert(all[i] == cities_after_anchor(n)[i - 1]);
        }
    }
    assert forall|city: usize| city < n implies #[trigger] all.contains(city) by {
        assert(all[city as int] == city);
    }
}

/// Committing a pending city leads from a state to a state.
pub proof fn lemma_state_after_commit(visited: Seq<usize>, pending: Seq<usize>, n: nat, i: int)
    requires
        is_state(visited, pending, n),
        0 <= i < pending.len(),
    ensures
        is_state(visited.push(pending[i]), pending.remove(i), n),
{
    let v = visited.len() as int;
    let old_all = visited + pending;
    let new_all = visited.push(pending[i]) + pending.remove(i);
    // the place in the old state of what stands at `a` in the new one
    let was = |a: int|
        if a < v {
            a
        } else if a == v {
            v + i
        } else if a <= v + i {
            a - 1
        } else {
            a
        };
    assert forall|a: int| 0 <= a < new_all.len() implies #[trigger] new_all[a] == old_all[was(
        a,
    )] by {}
    assert forall|a: int| 0 <= a < new_all.len() implies (#[trigger] new_all[a]) < n by {
        assert(new_all[a] == old_all[was(a)]);
    }
    assert forall|a: int, b: int| 0 <= a < b < new_all.len() implies new_all[a] != new_all[b] by {
        assert(new_all[a] == old_all[was(a)]);
        assert(new_all[b] == old_all[was(b)]);
    }
    assert forall|city: usize| city < n implies #[trigger] new_all.contains(city) by {
        assert(old_all.contains(city));
        let b = choose|b: int| 0 <= b < old_all.len() && old_all[b] == city;
        let a = if b < v {
            b
        } else if b == v + i {
            v
        } else if b < v + i {
            b + 1
        } else {
            b
        };
        assert(new_all[a] == old_all[was(a)]);
    }
    assert(new_all[0] == old_all[was(0)]);
}

/// From a state the search evaluates nothing but tours.
pub proof fn lemma_state_completions(visited: Seq<usize>, pending: Seq<usize>, n: nat, k: int)
    requires
        is_state(visited, pending, n),
        0 <= k < completions(visited, pending).len(),
    ensures
        is_tour(completions(visited, pending)[k], n),
        is_state(completions(visited, pending)[k], Seq::empty(), n),
    decreases pending.len(),
{
    if pending.len() == 0 {
        assert(visited + pending =~= visited);
        assert(visited + Seq::<usize>::empty() =~= visited);
    } else {
        let (i, at) = lemma_branches_origin(visited, pending, pending.len(), k);
        lemma_state_after_commit(visited, pending, n, i);
        lemma_state_completions(visited.push(pending[i]), pending.remove(i), n, at);
        let tour = completions(visited, pending)[k];
        assert(tour + Seq::<usize>::empty() =~= tour);
    }
}

/// The tours of `n` cities are the sequences that complete the anchor with
/// the cities after it.
pub proof fn lemma_tour_completes(tour: Seq<usize>, n: nat)
    requires
        1 <= n <= usize::MAX,
    ensures
        is_tour(tour, n) <==> completes(tour, seq![0usize], cities_after_anchor(n)),
{
    let anchor = seq![0usize];
    let others = cities_after_anchor(n);
    let rest = tour.skip(1);
    if is_tour(tour, n) {
        assert(tour.take(1) =~= anchor);
        assert forall|j: int| 0 <= j < rest.len() implies others.contains(#[trigger] rest[j]) by {
            assert(rest[j] == tour[j + 1]);
            assert(tour[j + 1] != tour[0]);
            assert(others[rest[j] - 1] == rest[j]);
        }
        assert forall|a: int, b: int| 0 <= a < b < rest.len() implies rest[a] != rest[b] by {
            assert(rest[a] == tour[a + 1]);
            assert(rest[b] == tour[b + 1]);
        }
    }
    if completes(tour, anchor, others) {
        assert(tour.take(1)[0] == anchor[0]);
        assert forall|j: int| 0 < j < tour.len() implies 0 < #[trigger] tour[j] < n by {
            assert(tour[j] == rest[j - 1]);
            assert(others.contains(rest[j - 1]));
        }
        assert forall|a: int, b: int| 0 < a < b < tour.len() implies tour[a] != tour[b] by {
            assert(tour[a] == rest[a - 1]);
            assert(tour[b] == rest[b - 1]);
        }
    }
}

/// The search is exhaustive: for `n` cities it evaluates
/// `factorial(n - 1)` sequences, each of them a tour, every tour among
/// them, and none of them twice.
pub proof fn lemma_search_order(n: nat)
    requires
        1 <= n <= usize::MAX,
    ensures
        search_order(n).len() == factorial((n - 1) as nat),
        forall|k: int| 0 <= k < search_order(n).len() ==> is_tour(#[trigger] search_order(n)[k], n),
        forall|tour: Seq<usize>| is_tour(tour, n) ==> search_order(n).contains(tour),
        search_order(n).no_duplicates(),
{
    let anchor = seq![0usize];
    let others = cities_after_anchor(n);
    let tours = search_order(n);
    lemma_completions_count(anchor, others);
    assert forall|k: int| 0 <= k < tours.len() implies is_tour(#[trigger] tours[k], n) by {
        lemma_completions_sound(anchor, others, k);
        lemma_tour_completes(tours[k], n);
    }
    assert forall|tour: Seq<usize>| is_tour(tour, n) implies tours.contains(tour) by {
        lemma_tour_completes(tour, n);
        let k = lemma_completions_complete(tour, anchor, others);
    }
    assert forall|a: int, b: int| 0 <= a < b < tours.len() implies tours[a] != tours[b] by {
        lemma_completions_distinct(anchor, others, a, b);
    }
}

/// For `n` cities the search evaluates the tours in the order of a
/// dictionary.
pub proof fn lemma_search_order_rises(n: nat, a: int, b: int)
    requires
        1 <= n <= usize::MAX,
        0 <= a < b < search_order(n).len(),
    ensures
        precedes(search_order(n)[a], search_order(n)[b]),
{
    lemma_completions_rise(seq![0usize], cities_after_anchor(n), a, b);
}

} // verus!
