use brute_tsp::grid::{calculate_edge_grid, distance_between, UNIT};
use brute_tsp::point::Point;
use brute_tsp::root::ceil_sqrt;

fn at(x: u16, y: u16) -> Point {
    Point { x, y }
}

#[test]
fn ceil_sqrt_of_squares_is_exact() {
    assert_eq!(ceil_sqrt(0), 0);
    assert_eq!(ceil_sqrt(1), 1);
    assert_eq!(ceil_sqrt(4), 2);
    assert_eq!(ceil_sqrt(144), 12);
    assert_eq!(ceil_sqrt(1 << 64), 1 << 32);
}

#[test]
fn ceil_sqrt_rounds_up_between_squares() {
    assert_eq!(ceil_sqrt(2), 2);
    assert_eq!(ceil_sqrt(3), 2);
    assert_eq!(ceil_sqrt(5), 3);
    assert_eq!(ceil_sqrt(143), 12);
    assert_eq!(ceil_sqrt(145), 13);
}

#[test]
fn ceil_sqrt_of_the_largest_argument() {
    assert_eq!(ceil_sqrt(u128::MAX), 1u128 << 64);
    assert_eq!(ceil_sqrt((u64::MAX as u128) * (u64::MAX as u128)), u64::MAX as u128);
    assert_eq!(ceil_sqrt((u64::MAX as u128) * (u64::MAX as u128) + 1), 1u128 << 64);
}

#[test]
fn unit_is_sixteen_binary_places() {
    assert_eq!(UNIT, 1 << 16);
}

#[test]
fn distance_along_an_axis_is_whole() {
    assert_eq!(distance_between(&at(0, 0), &at(1, 0)), UNIT);
    assert_eq!(distance_between(&at(7, 2), &at(7, 12)), 10 * UNIT);
    assert_eq!(distance_between(&at(0, 0), &at(0, 65535)), 4294901760);
}

#[test]
fn distance_of_a_right_triangle() {
    assert_eq!(distance_between(&at(0, 0), &at(3, 4)), 5 * UNIT);
    assert_eq!(distance_between(&at(0, 3), &at(4, 0)), 5 * UNIT);
}

#[test]
fn distance_is_rounded_up() {
    assert_eq!(distance_between(&at(0, 0), &at(1, 1)), 92682);
    assert_eq!(distance_between(&at(0, 0), &at(2, 2)), 185364);
    assert_eq!(distance_between(&at(0, 0), &at(1, 2)), 146543);
}

#[test]
fn distance_across_the_whole_grid() {
    assert_eq!(distance_between(&at(0, 0), &at(65535, 65535)), 6073908319);
    assert_eq!(distance_between(&at(65535, 0), &at(0, 65535)), 6073908319);
}

#[test]
fn distance_is_symmetric_and_zero_to_itself() {
    let points = [at(3, 9), at(40, 2), at(17, 17), at(0, 99), at(65535, 1)];
    for p in points.iter() {
        assert_eq!(distance_between(p, p), 0);
        for q in points.iter() {
            assert_eq!(distance_between(p, q), distance_between(q, p));
        }
    }
}

#[test]
fn distance_obeys_the_triangle_inequality() {
    let points = [at(0, 0), at(1, 1), at(2, 2), at(5, 1), at(99, 98), at(3, 7), at(65535, 65535)];
    for p in points.iter() {
        for q in points.iter() {
            for r in points.iter() {
                assert!(distance_between(p, r) <= distance_between(p, q) + distance_between(q, r));
            }
        }
    }
}

#[test]
fn triangle_inequality_is_tight_on_a_line() {
    let a = distance_between(&at(0, 0), &at(1, 1));
    let b = distance_between(&at(1, 1), &at(2, 2));
    assert_eq!(distance_between(&at(0, 0), &at(2, 2)), a + b);
}

#[test]
fn grid_of_a_right_triangle() {
    let grid = calculate_edge_grid(vec![at(0, 0), at(0, 3), at(4, 0)]);
    assert_eq!(
        grid,
        vec![
            vec![0, 3 * UNIT, 4 * UNIT],
            vec![3 * UNIT, 0, 5 * UNIT],
            vec![4 * UNIT, 5 * UNIT, 0],
        ]
    );
}

#[test]
fn grid_is_square_symmetric_and_zero_on_the_diagonal() {
    let points = vec![at(12, 80), at(0, 0), at(99, 99), at(45, 3), at(45, 3), at(7, 61)];
    let n = points.len();
    let grid = calculate_edge_grid(points.clone());
    assert_eq!(grid.len(), n);
    for i in 0..n {
        assert_eq!(grid[i].len(), n);
        assert_eq!(grid[i][i], 0);
        for j in 0..n {
            assert_eq!(grid[i][j], grid[j][i]);
            assert_eq!(grid[i][j], distance_between(&points[i], &points[j]));
        }
    }
    assert_eq!(grid[3][4], 0);
}

#[test]
fn grid_of_one_point_is_a_single_zero() {
    assert_eq!(calculate_edge_grid(vec![at(31, 4)]), vec![vec![0u64]]);
}

#[test]
fn grid_of_no_points_is_empty() {
    assert_eq!(calculate_edge_grid(Vec::new()), Vec::<Vec<u64>>::new());
}

#[test]
fn grid_built_twice_is_the_same() {
    let points = vec![at(1, 2), at(30, 40), at(99, 0), at(50, 50)];
    assert_eq!(calculate_edge_grid(points.clone()), calculate_edge_grid(points));
}
