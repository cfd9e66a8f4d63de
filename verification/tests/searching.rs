use brute_tsp::grid::{calculate_edge_grid, UNIT};
use brute_tsp::point::Point;
use brute_tsp::search::{brute_force, complete_tours, shortest_tour, tour_total, traverse, Best};

fn at(x: u16, y: u16) -> Point {
    Point { x, y }
}

fn length_of(points: Vec<Point>) -> u128 {
    brute_force(calculate_edge_grid(points)).length
}

fn factorial(n: usize) -> usize {
    (1..=n).product()
}

#[test]
fn right_triangle_has_its_perimeter() {
    let best = brute_force(calculate_edge_grid(vec![at(0, 0), at(0, 3), at(4, 0)]));
    assert_eq!(best.length, 12 * UNIT as u128);
    assert_eq!(best.tour, vec![0, 1, 2]);
}

#[test]
fn unit_square_has_its_perimeter() {
    let best = brute_force(calculate_edge_grid(vec![at(0, 0), at(0, 1), at(1, 1), at(1, 0)]));
    assert_eq!(best.length, 4 * UNIT as u128);
    assert_eq!(best.tour, vec![0, 1, 2, 3]);
}

#[test]
fn unit_square_in_crossed_order_is_uncrossed() {
    let best = brute_force(calculate_edge_grid(vec![at(0, 0), at(1, 1), at(0, 1), at(1, 0)]));
    assert_eq!(best.length, 4 * UNIT as u128);
    assert_eq!(best.tour, vec![0, 2, 1, 3]);
}

#[test]
fn collinear_points_go_out_and_back() {
    assert_eq!(length_of(vec![at(0, 0), at(1, 0), at(2, 0)]), 4 * UNIT as u128);
}

#[test]
fn single_city_has_a_tour_of_length_zero() {
    let best = brute_force(calculate_edge_grid(vec![at(17, 23)]));
    assert_eq!(best.length, 0);
    assert_eq!(best.tour, vec![0]);
}

#[test]
fn two_cities_go_there_and_back() {
    let grid = calculate_edge_grid(vec![at(2, 1), at(7, 13)]);
    let there = grid[0][1] as u128;
    let best = brute_force(grid);
    assert_eq!(best.length, 2 * there);
    assert_eq!(best.length, 26 * UNIT as u128);
    assert_eq!(best.tour, vec![0, 1]);
}

#[test]
fn five_cities_in_two_clusters() {
    let points = vec![at(0, 0), at(5, 5), at(1, 0), at(6, 5), at(0, 1)];
    let best = brute_force(calculate_edge_grid(points));
    assert_eq!(best.length, 1079654);
    assert_eq!(best.tour, vec![0, 2, 3, 1, 4]);
}

#[test]
fn six_cities_around_a_square() {
    let points = vec![at(10, 10), at(90, 10), at(90, 90), at(10, 90), at(50, 50), at(50, 10)];
    let best = brute_force(calculate_edge_grid(points));
    assert_eq!(best.length, 23143194);
    assert_eq!(best.tour, vec![0, 3, 2, 4, 1, 5]);
}

#[test]
fn first_of_equal_tours_wins() {
    let grid = vec![vec![7u64; 4]; 4];
    let best = brute_force(grid);
    assert_eq!(best.length, 28);
    assert_eq!(best.tour, vec![0, 1, 2, 3]);
}

#[test]
fn closing_edge_runs_from_the_last_city_to_the_first() {
    let best = brute_force(vec![vec![0, 1], vec![10, 0]]);
    assert_eq!(best.length, 11);
    let grid = vec![vec![0, 1, 100], vec![100, 0, 1], vec![1, 100, 0]];
    assert_eq!(tour_total(&vec![0, 1, 2], &grid), 3);
    assert_eq!(tour_total(&vec![0, 2, 1], &grid), 300);
    let best = brute_force(grid);
    assert_eq!(best.length, 3);
    assert_eq!(best.tour, vec![0, 1, 2]);
}

#[test]
fn weights_on_the_diagonal_count_only_for_a_single_city() {
    assert_eq!(brute_force(vec![vec![5]]).length, 5);
    assert_eq!(brute_force(vec![vec![5, 1], vec![1, 5]]).length, 2);
}

#[test]
fn largest_weights_do_not_overflow() {
    let grid = vec![vec![u64::MAX; 3]; 3];
    assert_eq!(brute_force(grid).length, 3 * (u64::MAX as u128));
}

#[test]
fn tour_total_adds_every_edge_and_the_way_back() {
    let grid = calculate_edge_grid(vec![at(0, 0), at(0, 3), at(4, 0)]);
    assert_eq!(tour_total(&vec![0, 1, 2], &grid), 12 * UNIT as u128);
    assert_eq!(tour_total(&vec![2, 0], &grid), 8 * UNIT as u128);
    assert_eq!(tour_total(&vec![1], &grid), 0);
}

#[test]
fn search_is_the_same_every_time() {
    let points = vec![at(3, 3), at(80, 12), at(45, 45), at(9, 70), at(66, 66), at(20, 1)];
    let grid = calculate_edge_grid(points);
    let first = brute_force(grid.clone());
    let second = brute_force(grid.clone());
    let third = brute_force(grid);
    assert_eq!(first, second);
    assert_eq!(second, third);
}

#[test]
fn search_evaluates_every_ordering_once() {
    for n in 1..=7usize {
        let tours = complete_tours(vec![0], (1..n).collect());
        assert_eq!(tours.len(), factorial(n - 1));
        for tour in tours.iter() {
            assert_eq!(tour.len(), n);
            assert_eq!(tour[0], 0);
            let mut sorted = tour.clone();
            sorted.sort();
            assert_eq!(sorted, (0..n).collect::<Vec<usize>>());
        }
        for i in 1..tours.len() {
            assert!(tours[i - 1] < tours[i]);
        }
    }
}

#[test]
fn search_order_of_four_cities() {
    assert_eq!(
        complete_tours(vec![0], vec![1, 2, 3]),
        vec![
            vec![0, 1, 2, 3],
            vec![0, 1, 3, 2],
            vec![0, 2, 1, 3],
            vec![0, 2, 3, 1],
            vec![0, 3, 1, 2],
            vec![0, 3, 2, 1],
        ]
    );
}

#[test]
fn search_order_follows_the_pending_cities() {
    assert_eq!(
        complete_tours(vec![4, 0], vec![3, 1]),
        vec![vec![4, 0, 3, 1], vec![4, 0, 1, 3]]
    );
    assert_eq!(complete_tours(vec![2, 1, 0], Vec::new()), vec![vec![2, 1, 0]]);
}

#[test]
fn minimum_is_the_least_over_all_orderings() {
    let points = vec![at(5, 9), at(61, 40), at(33, 33), at(90, 2), at(14, 77), at(50, 95)];
    let grid = calculate_edge_grid(points);
    let best = brute_force(grid.clone());
    let tours = complete_tours(vec![0], (1..6).collect());
    let least = tours.iter().map(|tour| tour_total(tour, &grid)).min();
    assert_eq!(Some(best.length), least);
    let first = tours.iter().find(|tour| tour_total(tour, &grid) == best.length);
    assert_eq!(Some(&best.tour), first);
}

#[test]
fn running_minimum_never_rises() {
    let grid = calculate_edge_grid(vec![at(0, 0), at(0, 3), at(4, 0), at(4, 3)]);
    let mut held = Best::unknown();
    assert_eq!(held.length, u128::MAX);
    for first in 1..4usize {
        let pending: Vec<usize> = (1..4).filter(|city| *city != first).collect();
        let next = traverse(vec![0, first], pending, held.clone(), &grid);
        assert!(next.length <= held.length);
        held = next;
    }
    assert_eq!(held.length, 14 * UNIT as u128);
    assert_eq!(held.tour, vec![0, 1, 3, 2]);
}

#[test]
fn traverse_keeps_a_minimum_that_no_tour_beats() {
    let grid = calculate_edge_grid(vec![at(0, 0), at(0, 3), at(4, 0)]);
    let held = Best { length: 12 * UNIT as u128, tour: vec![9, 9, 9] };
    let out = traverse(vec![0], vec![1, 2], held.clone(), &grid);
    assert_eq!(out, held);
    let lower = Best { length: 5, tour: Vec::new() };
    assert_eq!(traverse(vec![0], vec![2, 1], lower.clone(), &grid), lower);
}

#[test]
fn traverse_replaces_a_longer_minimum() {
    let grid = calculate_edge_grid(vec![at(0, 0), at(0, 3), at(4, 0)]);
    let held = Best { length: 12 * UNIT as u128 + 1, tour: vec![9, 9, 9] };
    let out = traverse(vec![0], vec![2, 1], held, &grid);
    assert_eq!(out.length, 12 * UNIT as u128);
    assert_eq!(out.tour, vec![0, 2, 1]);
}

#[test]
fn traverse_completes_a_partial_tour() {
    let grid = calculate_edge_grid(vec![at(0, 0), at(10, 0), at(10, 10), at(0, 10), at(5, 5)]);
    let out = traverse(vec![0, 2], vec![1, 3, 4], Best::unknown(), &grid);
    let tours = complete_tours(vec![0, 2], vec![1, 3, 4]);
    assert_eq!(tours.len(), 6);
    let least = tours.iter().map(|tour| tour_total(tour, &grid)).min();
    assert_eq!(Some(out.length), least);
    assert_eq!(&out.tour[..2], &[0, 2]);
}

#[test]
fn shortest_tour_of_no_cities_is_none() {
    assert_eq!(shortest_tour(Vec::new()), None);
}

#[test]
fn shortest_tour_measures_and_searches() {
    let found = shortest_tour(vec![at(0, 0), at(0, 3), at(4, 0)]);
    assert_eq!(found, Some(Best { length: 12 * UNIT as u128, tour: vec![0, 1, 2] }));
    let single = shortest_tour(vec![at(8, 8)]);
    assert_eq!(single, Some(Best { length: 0, tour: vec![0] }));
}
