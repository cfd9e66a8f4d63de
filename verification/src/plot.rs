//! Placing cities on a coarse square plot.

use vstd::prelude::*;
use crate::point::Point;

verus! {

/// The column or row of the plot into which a coordinate falls, where
/// every cell is `scale` grid steps wide and high.
pub open spec fn pixel(coordinate: u16, scale: u16) -> int {
    (coordinate as int) / (scale as int)
}

/// The point falls into the cell in column `column` and row `row` of the
/// plot.
pub open spec fn lands(point: Point, scale: u16, column: int, row: int) -> bool {
    pixel(point.x, scale) == column && pixel(point.y, scale) == row
}

/// All points fall into a plot of `pixels` by `pixels` cells.
pub open spec fn fits(points: Seq<Point>, scale: u16, pixels: nat) -> bool {
    forall|i: int|
        0 <= i < points.len() ==> pixel((#[trigger] points[i]).x, scale) < pixels && pixel(
            points[i].y,
            scale,
        ) < pixels
}

/// What a cell of the plot shows: the last of the cities that fall into
/// it, or nothing where none does.
pub open spec fn shows(
    points: Seq<Point>,
    scale: u16,
    column: int,
    row: int,
    cell: Option<usize>,
) -> bool {
    match cell {
        Some(city) => {
            &&& city < points.len()
            &&& lands(points[city as int], scale, column, row)
            &&& forall|j: int|
                city < j < points.len() ==> !lands(#[trigger] points[j], scale, column, row)
        },
        None => forall|j: int|
            0 <= j < points.len() ==> !lands(#[trigger] points[j], scale, column, row),
    }
}

/// Finds the cell of the plot into which a point falls: its column and its
/// row.
pub fn pixel_of(point: &Point, scale: u16) -> (cell: (usize, usize))
    requires
        scale > 0,
    ensures
        lands(*point, scale, cell.0 as int, cell.1 as int),
{
    ((point.x / scale) as usize, (point.y / scale) as usize)
}

/// Builds a row of `pixels` empty cells.
fn empty_row(pixels: usize) -> (row: Vec<Option<usize>>)
    ensures
        row@.len() == pixels,
        forall|j: int| 0 <= j < pixels ==> row@[j] == None::<usize>,
{
    let mut row: Vec<Option<usize>> = Vec::new();
    while row.len() < pixels
        invariant
            row@.len() <= pixels,
            forall|j: int| 0 <= j < row@.len() ==> row@[j] == None::<usize>,
        decreases pixels - row@.len(),
    {
        row.push(None);
    }
    row
}

/// Lays the cities out on a plot of `pixels` columns of `pixels` cells
/// each, where a cell stands for `scale` grid steps each way. The cell in
/// column `a` and row `b` is entry `b` of entry `a` of the result. Where
/// several cities fall into one cell, the cell shows the last of them.
pub fn plot_cells(points: &Vec<Point>, scale: u16, pixels: usize) -> (plot: Vec<Vec<Option<usize>>>)
    requires
        scale > 0,
        fits(points@, scale, pixels as nat),
    ensures
        plot@.len() == pixels,
        forall|a: int| 0 <= a < pixels ==> (#[trigger] plot@[a])@.len() == pixels,
        forall|a: int, b: int|
            0 <= a < pixels && 0 <= b < pixels ==> shows(
                points@,
                scale,
                a,
                b,
                #[trigger] plot@[a]@[b],
            ),
{
    let mut plot: Vec<Vec<Option<usize>>> = Vec::new();
    while plot.len() < pixels
        invariant
            plot@.len() <= pixels,
            forall|a: int| 0 <= a < plot@.len() ==> (#[trigger] plot@[a])@.len() == pixels,
            forall|a: int, b: int|
                0 <= a < plot@.len() && 0 <= b < pixels ==> (#[trigger] plot@[a]@[b])
                    == None::<usize>,
        decreases pixels - plot@.len(),
    {
        plot.push(empty_row(pixels));
    }
    let n = points.len();
    for i in 0..n
        invariant
            n == points@.len(),
            scale > 0,
            fits(points@, scale, pixels as nat),
            plot@.len() == pixels,
            forall|a: int| 0 <= a < pixels ==> (#[trigger] plot@[a])@.len() == pixels,
            forall|a: int, b: int|
                0 <= a < pixels && 0 <= b < pixels ==> shows(
                    points@.take(i as int),
                    scale,
                    a,
                    b,
                    #[trigger] plot@[a]@[b],
                ),
    {
        let (ix, iy) = pixel_of(&points[i], scale);
        let ghost before = plot@;
        plot[ix][iy] = Some(i);
        proof {
            let seen = points@.take(i as int);
            let more = points@.take(i + 1);
            assert forall|a: int, b: int| 0 <= a < pixels && 0 <= b < pixels implies shows(
                more,
                scale,
                a,
                b,
                #[trigger] plot@[a]@[b],
            ) by {
                if a == ix && b == iy {
                    assert(more[i as int] == points@[i as int]);
                } else {
                    assert(plot@[a]@[b] == before[a]@[b]);
                    assert(shows(seen, scale, a, b, before[a]@[b]));
                    assert(!lands(more[i as int], scale, a, b));
                    assert forall|j: int| 0 <= j < i implies more[j] == seen[j] by {}
                }
            }
        }
    }
    assert(points@.take(n as int) =~= points@);
    plot
}

} // verus!
