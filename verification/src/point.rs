//! Cities on the integer grid.

use rand::Rng;
use vstd::prelude::*;

verus! {

/// A city: a point with whole, non-negative coordinates.
#[derive(Clone, Copy, Debug, PartialEq, Eq)]
pub struct Point {
    pub x: u16,
    pub y: u16,
}

/// Every point lies in the square of side `width` whose corner is the
/// origin.
pub open spec fn within(points: Seq<Point>, width: u16) -> bool {
    forall|i: int| 0 <= i < points.len() ==> (#[trigger] points[i]).x < width && points[i].y < width
}

/// Draws a whole number below `width` at random.
///
/// Trusted: the body calls `rand::Rng::gen_range` on the generator that
/// `rand::thread_rng` hands out, with the half-open range `0..width`. The
/// contract claims of it only that the number drawn lies in that range, and
/// leaves out the empty range, on which `gen_range` panics. Which number is
/// drawn is left open: two calls may differ.
#[verifier::external_body]
fn random_below(width: u16) -> (drawn: u16)
    requires
        width > 0,
    ensures
        drawn < width,
{
    rand::thread_rng().gen_range(0..width)
}

/// Generates `n` cities at random places in the square of side `width`.
pub fn generate_points(n: usize, width: u16) -> (points: Vec<Point>)
    requires
        n > 0 ==> width > 0,
    ensures
        points@.len() == n,
        within(points@, width),
{
    let mut points: Vec<Point> = Vec::new();
    for i in 0..n
        invariant
            n > 0 ==> width > 0,
            points@.len() == i,
            within(points@, width),
    {
        let xi: u16 = random_below(width);
        let yi: u16 = random_below(width);
        points.push(Point { x: xi, y: yi });
    }
    points
}

} // verus!
