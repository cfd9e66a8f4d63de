use brute_tsp::plot::{pixel_of, plot_cells};
use brute_tsp::point::{generate_points, Point};

fn at(x: u16, y: u16) -> Point {
    Point { x, y }
}

#[test]
fn generated_points_lie_within_the_width() {
    let points = generate_points(200, 100);
    assert_eq!(points.len(), 200);
    for point in points.iter() {
        assert!(point.x < 100);
        assert!(point.y < 100);
    }
}

#[test]
fn generated_points_of_width_one_are_the_origin() {
    let points = generate_points(25, 1);
    assert_eq!(points, vec![at(0, 0); 25]);
}

#[test]
fn generated_points_vary() {
    let points = generate_points(64, 60000);
    assert!(points.iter().any(|point| *point != points[0]));
}

#[test]
fn no_points_are_generated_on_request() {
    assert_eq!(generate_points(0, 100), Vec::new());
    assert_eq!(generate_points(0, 0), Vec::new());
}

#[test]
fn pixel_divides_both_coordinates() {
    assert_eq!(pixel_of(&at(99, 0), 2), (49, 0));
    assert_eq!(pixel_of(&at(3, 98), 2), (1, 49));
    assert_eq!(pixel_of(&at(65535, 65535), 1), (65535, 65535));
    assert_eq!(pixel_of(&at(65535, 7), 65535), (1, 0));
}

#[test]
fn plot_shows_each_city_in_its_cell() {
    let points = vec![at(0, 0), at(99, 99), at(50, 3)];
    let plot = plot_cells(&points, 2, 50);
    assert_eq!(plot.len(), 50);
    for column in 0..50 {
        assert_eq!(plot[column].len(), 50);
        for row in 0..50 {
            let expected = match (column, row) {
                (0, 0) => Some(0),
                (49, 49) => Some(1),
                (25, 1) => Some(2),
                _ => None,
            };
            assert_eq!(plot[column][row], expected);
        }
    }
}

#[test]
fn plot_shows_the_last_city_of_a_cell() {
    let points = vec![at(0, 0), at(1, 1), at(2, 2), at(1, 0)];
    let plot = plot_cells(&points, 2, 2);
    assert_eq!(plot, vec![vec![Some(3), None], vec![None, Some(2)]]);
}

#[test]
fn plot_without_cities_is_empty() {
    let plot = plot_cells(&Vec::new(), 3, 2);
    assert_eq!(plot, vec![vec![None, None], vec![None, None]]);
    assert_eq!(plot_cells(&Vec::new(), 1, 0), Vec::<Vec<Option<usize>>>::new());
}
