//! Pairwise distances between cities.

use vstd::prelude::*;
use crate::point::Point;
use crate::root::{
    ceil_root, ceil_sqrt, is_ceil_root, lemma_ceil_root, lemma_ceil_root_is, lemma_square_monotone,
};

verus! {

/// The length that stands for one step along an axis: distances are held in
/// fixed point, with sixteen binary places.
pub const UNIT: u64 = 65536;

/// The square of the Euclidean distance between two points, in grid steps.
pub open spec fn squared_distance(p: Point, q: Point) -> nat {
    ((p.x - q.x) * (p.x - q.x) + (p.y - q.y) * (p.y - q.y)) as nat
}

/// The Euclidean distance between two points in multiples of `1 / UNIT`,
/// rounded up to the next whole multiple.
pub open spec fn distance(p: Point, q: Point) -> nat {
    ceil_root(squared_distance(p, q) * (UNIT * UNIT) as nat)
}

/// The table of all pairwise distances of a sequence of points.
pub open spec fn distance_matrix(points: Seq<Point>) -> Seq<Seq<u64>> {
    Seq::new(
        points.len(),
        |i: int| Seq::new(points.len(), |j: int| distance(points[i], points[j]) as u64),
    )
}

/// The squared distance is the sum of two squares, symmetric, and bounded
/// by the extent of the grid.
pub proof fn lemma_squared_distance(p: Point, q: Point)
    ensures
        squared_distance(p, q) == (p.x - q.x) * (p.x - q.x) + (p.y - q.y) * (p.y - q.y),
        squared_distance(p, q) == squared_distance(q, p),
        squared_distance(p, q) <= 2 * (0xffff * 0xffff),
{
    let dx = p.x - q.x;
    let dy = p.y - q.y;
    assert(0 <= dx * dx <= 0xffff * 0xffff) by (nonlinear_arith)
        requires
            -0xffff <= dx <= 0xffff,
    ;
    assert(0 <= dy * dy <= 0xffff * 0xffff) by (nonlinear_arith)
        requires
            -0xffff <= dy <= 0xffff,
    ;
    assert((-dx) * (-dx) == dx * dx) by (nonlinear_arith);
    assert((-dy) * (-dy) == dy * dy) by (nonlinear_arith);
    assert(q.x - p.x == -dx);
    assert(q.y - p.y == -dy);
}

/// The distance is the Euclidean one, rounded up: its square reaches the
/// squared distance in units of `1 / UNIT`, and the square of one less does
/// not.
pub proof fn lemma_distance_rounds_up(p: Point, q: Point)
    ensures
        is_ceil_root(distance(p, q), squared_distance(p, q) * (UNIT * UNIT) as nat),
{
    lemma_ceil_root(squared_distance(p, q) * (UNIT * UNIT) as nat);
}

/// A distance between two points of the grid fits in 34 bits.
pub proof fn lemma_distance_bound(p: Point, q: Point)
    ensures
        distance(p, q) <= 0x2_0000_0000,
{
    let s = squared_distance(p, q);
    lemma_squared_distance(p, q);
    let v = s * (UNIT * UNIT) as nat;
    assert(v <= 0x2_0000_0000 * 0x2_0000_0000) by (nonlinear_arith)
        requires
            v == s * 0x1_0000_0000,
            s <= 2 * (0xffff * 0xffff),
    ;
    lemma_ceil_root(v);
    let r = ceil_root(v);
    if r > 0x2_0000_0000 {
        lemma_square_monotone(0x2_0000_0000, (r - 1) as nat);
    }
}

/// Distance does not depend on direction, and a point is at distance zero
/// from itself.
pub proof fn lemma_distance_symmetric(p: Point, q: Point)
    ensures
        distance(p, q) == distance(q, p),
        distance(p, p) == 0,
{
    lemma_squared_distance(p, q);
    lemma_squared_distance(p, p);
    assert(squared_distance(p, p) == 0);
    assert(is_ceil_root(0, 0));
    lemma_ceil_root_is(0, 0);
    assert(squared_distance(p, p) * (UNIT * UNIT) as nat == 0);
}

/// The inner product of two plane vectors is bounded by their lengths.
proof fn lemma_inner_product(ux: int, uy: int, vx: int, vy: int)
    ensures
        (ux * vx + uy * vy) * (ux * vx + uy * vy) <= (ux * ux + uy * uy) * (vx * vx + vy * vy),
{
    let a = ux * vx;
    let b = uy * vy;
    let c = ux * vy;
    let e = uy * vx;
    let uu = ux * ux + uy * uy;
    let vv = vx * vx + vy * vy;
    assert((ux * ux) * (vx * vx) == a * a) by (nonlinear_arith)
        requires
            a == ux * vx,
    ;
    assert((ux * ux) * (vy * vy) == c * c) by (nonlinear_arith)
        requires
            c == ux * vy,
    ;
    assert((uy * uy) * (vx * vx) == e * e) by (nonlinear_arith)
        requires
            e == uy * vx,
    ;
    assert((uy * uy) * (vy * vy) == b * b) by (nonlinear_arith)
        requires
            b == uy * vy,
    ;
    assert(a * b == c * e) by (nonlinear_arith)
        requires
            a == ux * vx,
            b == uy * vy,
            c == ux * vy,
            e == uy * vx,
    ;
    assert(uu * vv == (ux * ux) * (vx * vx) + (ux * ux) * (vy * vy) + (uy * uy) * (vx * vx) + (uy
        * uy) * (vy * vy)) by (nonlinear_arith)
        requires
            uu == ux * ux + uy * uy,
            vv == vx * vx + vy * vy,
    ;
    assert((a + b) * (a + b) == a * a + b * b + 2 * (a * b)) by (nonlinear_arith);
    assert((c - e) * (c - e) == c * c + e * e - 2 * (c * e)) by (nonlinear_arith);
    assert((c - e) * (c - e) >= 0) by (nonlinear_arith);
}

/// Of two natural numbers, the one with the smaller square is the smaller.
proof fn lemma_square_order(a: nat, b: nat)
    requires
        a * a <= b * b,
    ensures
        a <= b,
{
    if b < a {
        lemma_square_monotone(b + 1, a);
        assert(b * b < (b + 1) * (b + 1)) by (nonlinear_arith);
    }
}

/// Rounded-up roots of scaled squared lengths obey the triangle inequality:
/// with `cc == aa + bb + 2 * d` and `d * d <= aa * bb`, the root of `k * cc`
/// is at most the sum of the roots of `k * aa` and `k * bb`.
proof fn lemma_root_triangle(k: nat, aa: nat, bb: nat, cc: nat, d: int)
    requires
        cc == aa + bb + 2 * d,
        d * d <= aa * bb,
    ensures
        ceil_root(k * cc) <= ceil_root(k * aa) + ceil_root(k * bb),
{
    let a = ceil_root(k * aa);
    let b = ceil_root(k * bb);
    let c = ceil_root(k * cc);
    lemma_ceil_root(k * aa);
    lemma_ceil_root(k * bb);
    lemma_ceil_root(k * cc);
    let x = k * aa;
    let y = k * bb;
    assert(k * d <= a * b) by {
        if d > 0 {
            let kd = (k * d) as nat;
            assert(k * d >= 0) by (nonlinear_arith)
                requires
                    d > 0,
                    k >= 0,
            ;
            assert(kd * kd == (k * k) * (d * d)) by (nonlinear_arith)
                requires
                    kd == k * d,
            ;
            assert((k * k) * (d * d) <= (k * k) * (aa * bb)) by (nonlinear_arith)
                requires
                    d * d <= aa * bb,
            ;
            assert((k * k) * (aa * bb) == x * y) by (nonlinear_arith)
                requires
                    x == k * aa,
                    y == k * bb,
            ;
            assert(x * y <= (a * a) * (b * b)) by (nonlinear_arith)
                requires
                    x <= a * a,
                    y <= b * b,
                    0 <= x,
                    0 <= y,
            ;
            assert((a * a) * (b * b) == (a * b) * (a * b)) by (nonlinear_arith);
            lemma_square_order(kd, a * b);
        } else {
            assert(k * d <= 0) by (nonlinear_arith)
                requires
                    d <= 0,
                    k >= 0,
            ;
            assert(a * b >= 0) by (nonlinear_arith)
                requires
                    a >= 0,
                    b >= 0,
            ;
        }
    }
    assert(k * cc == x + y + 2 * (k * d)) by (nonlinear_arith)
        requires
            cc == aa + bb + 2 * d,
            x == k * aa,
            y == k * bb,
    ;
    assert((a + b) * (a + b) == a * a + b * b + 2 * (a * b)) by (nonlinear_arith);
    assert((a + b) * (a + b) >= k * cc);
    if c > a + b {
        lemma_square_monotone(a + b, (c - 1) as nat);
    }
}

/// Going by way of a third point is never shorter than going straight.
pub proof fn lemma_triangle_inequality(p: Point, q: Point, r: Point)
    ensures
        distance(p, r) <= distance(p, q) + distance(q, r),
{
    let ux = p.x - q.x;
    let uy = p.y - q.y;
    let vx = q.x - r.x;
    let vy = q.y - r.y;
    let aa = squared_distance(p, q);
    let bb = squared_distance(q, r);
    let cc = squared_distance(p, r);
    let d = ux * vx + uy * vy;
    lemma_squared_distance(p, q);
    lemma_squared_distance(q, r);
    lemma_squared_distance(p, r);
    assert(p.x - r.x == ux + vx);
    assert(p.y - r.y == uy + vy);
    assert(cc == aa + bb + 2 * d) by (nonlinear_arith)
        requires
            cc == (ux + vx) * (ux + vx) + (uy + vy) * (uy + vy),
            aa == ux * ux + uy * uy,
            bb == vx * vx + vy * vy,
            d == ux * vx + uy * vy,
    ;
    lemma_inner_product(ux, uy, vx, vy);
    lemma_root_triangle((UNIT * UNIT) as nat, aa, bb, cc, d);
}

/// Computes the distance between two points.
pub fn distance_between(p: &Point, q: &Point) -> (d: u64)
    ensures
        d == distance(*p, *q),
{
    let dx: i64 = p.x as i64 - q.x as i64;
    let dy: i64 = p.y as i64 - q.y as i64;
    assert(0 <= dx * dx <= 0xffff * 0xffff) by (nonlinear_arith)
        requires
            -0xffff <= dx <= 0xffff,
    ;
    assert(0 <= dy * dy <= 0xffff * 0xffff) by (nonlinear_arith)
        requires
            -0xffff <= dy <= 0xffff,
    ;
    proof {
        lemma_squared_distance(*p, *q);
    }
    let squared: i64 = dx * dx + dy * dy;
    let scaled: u128 = (squared as u128) * (UNIT as u128) * (UNIT as u128);
    let r = ceil_sqrt(scaled);
    proof {
        assert(scaled == squared_distance(*p, *q) * (UNIT * UNIT) as nat) by (nonlinear_arith)
            requires
                scaled == squared * 65536 * 65536,
                squared == squared_distance(*p, *q),
                UNIT == 65536,
        ;
        lemma_distance_bound(*p, *q);
    }
    r as u64
}

/// A table of `n` rows of `n` entries each.
pub open spec fn is_square(grid: Seq<Seq<u64>>, n: nat) -> bool {
    &&& grid.len() == n
    &&& forall|i: int| 0 <= i < n ==> (#[trigger] grid[i]).len() == n
}

/// `grid` holds, for every two of the points, their distance.
pub open spec fn holds_distances(grid: Seq<Seq<u64>>, points: Seq<Point>) -> bool {
    &&& is_square(grid, points.len())
    &&& forall|i: int, j: int|
        0 <= i < points.len() && 0 <= j < points.len() ==> grid[i][j] == distance(
            points[i],
            points[j],
        )
}

/// The points alone decide their table of distances: two tables that hold
/// the distances of the same points are the same table, entry for entry.
pub proof fn lemma_distances_determined(
    points: Seq<Point>,
    one: Seq<Seq<u64>>,
    other: Seq<Seq<u64>>,
)
    requires
        holds_distances(one, points),
        holds_distances(other, points),
    ensures
        one == other,
        one == distance_matrix(points),
{
    let table = distance_matrix(points);
    assert forall|i: int| 0 <= i < points.len() implies #[trigger] one[i] == table[i] && other[i]
        == table[i] by {
        assert forall|j: int| 0 <= j < points.len() implies one[i][j] == table[i][j] && other[i][j]
            == table[i][j] by {
            lemma_distance_bound(points[i], points[j]);
        }
        assert(one[i] =~= table[i]);
        assert(other[i] =~= table[i]);
    }
    assert(one =~= table);
    assert(other =~= table);
}

/// The table of distances is a metric on the cities: it is symmetric, zero
/// on the diagonal, and obeys the triangle inequality.
pub proof fn lemma_distance_matrix_metric(points: Seq<Point>, i: int, j: int, k: int)
    requires
        0 <= i < points.len(),
        0 <= j < points.len(),
        0 <= k < points.len(),
    ensures
        distance_matrix(points)[i][j] == distance_matrix(points)[j][i],
        distance_matrix(points)[i][i] == 0,
        distance_matrix(points)[i][k] <= distance_matrix(points)[i][j] + distance_matrix(
            points,
        )[j][k],
{
    lemma_distance_symmetric(points[i], points[j]);
    lemma_triangle_inequality(points[i], points[j], points[k]);
    lemma_distance_bound(points[i], points[j]);
    lemma_distance_bound(points[j], points[i]);
    lemma_distance_bound(points[i], points[k]);
    lemma_distance_bound(points[j], points[k]);
}

/// Builds a row of `n` zeros.
fn zero_row(n: usize) -> (row: Vec<u64>)
    ensures
        row@.len() == n,
        forall|j: int| 0 <= j < n ==> row@[j] == 0,
{
    let mut row: Vec<u64> = Vec::new();
    while row.len() < n
        invariant
            row@.len() <= n,
            forall|j: int| 0 <= j < row@.len() ==> row@[j] == 0,
        decreases n - row@.len(),
    {
        row.push(0);
    }
    row
}

/// Builds a table of `n` rows of `n` zeros.
fn zero_grid(n: usize) -> (grid: Vec<Vec<u64>>)
    ensures
        is_square(grid.deep_view(), n as nat),
        forall|i: int, j: int| 0 <= i < n && 0 <= j < n ==> grid@[i]@[j] == 0,
{
    let mut grid: Vec<Vec<u64>> = Vec::new();
    while grid.len() < n
        invariant
            grid@.len() <= n,
            forall|i: int| 0 <= i < grid@.len() ==> (#[trigger] grid@[i])@.len() == n,
            forall|i: int, j: int| 0 <= i < grid@.len() && 0 <= j < n ==> grid@[i]@[j] == 0,
        decreases n - grid@.len(),
    {
        grid.push(zero_row(n));
    }
    assert forall|i: int| 0 <= i < n implies (#[trigger] grid.deep_view()[i]).len() == n by {
        assert(grid.deep_view()[i] == grid@[i].deep_view());
    }
    grid
}

/// Calculates the distances between the points as a table, where entry `j`
/// of row `i` is the distance from city `i` to city `j`. Each pair is
/// measured once and written on both sides of the diagonal.
pub fn calculate_edge_grid(points: Vec<Point>) -> (grid: Vec<Vec<u64>>)
    ensures
        grid.deep_view() == distance_matrix(points@),
        holds_distances(grid.deep_view(), points@),
        forall|i: int, j: int|
            0 <= i < points@.len() && 0 <= j < points@.len() ==> (#[trigger] grid@[i]@[j])
                == grid@[j]@[i],
        forall|i: int| 0 <= i < points@.len() ==> (#[trigger] grid@[i])@[i] == 0,
{
    let n = points.len();
    let mut grid = zero_grid(n);
    assert forall|i: int| 0 <= i < n implies (#[trigger] grid@[i])@.len() == n by {
        assert(grid.deep_view()[i] == grid@[i].deep_view());
    }
    for i in 0..n
        invariant
            n == points@.len(),
            grid@.len() == n,
            forall|a: int| 0 <= a < n ==> (#[trigger] grid@[a])@.len() == n,
            forall|a: int| 0 <= a < n ==> grid@[a]@[a] == 0,
            forall|a: int, b: int|
                0 <= a < i && a < b < n ==> {
                    &&& grid@[a]@[b] == distance(points@[a], points@[b])
                    &&& grid@[b]@[a] == distance(points@[a], points@[b])
                },
    {
        for j in (i + 1)..n
            invariant
                i < n,
                n == points@.len(),
                grid@.len() == n,
                forall|a: int| 0 <= a < n ==> (#[trigger] grid@[a])@.len() == n,
                forall|a: int| 0 <= a < n ==> grid@[a]@[a] == 0,
                forall|a: int, b: int|
                    0 <= a < n && a < b < n && (a < i || (a == i && b < j)) ==> {
                        &&& grid@[a]@[b] == distance(points@[a], points@[b])
                        &&& grid@[b]@[a] == distance(points@[a], points@[b])
                    },
        {
            let d = distance_between(&points[i], &points[j]);
            grid[i][j] = d;
            grid[j][i] = d;
        }
    }
    proof {
        assert forall|a: int, b: int| 0 <= a < n && 0 <= b < n implies {
            &&& (#[trigger] grid@[a]@[b]) == distance(points@[a], points@[b])
            &&& grid@[a]@[b] == grid@[b]@[a]
        } by {
            lemma_distance_symmetric(points@[a], points@[b]);
            lemma_distance_symmetric(points@[b], points@[a]);
        }
        assert forall|a: int| 0 <= a < n implies (#[trigger] grid.deep_view()[a])
            =~= distance_matrix(points@)[a] by {
            assert(grid.deep_view()[a] == grid@[a].deep_view());
            assert forall|b: int| 0 <= b < n implies grid.deep_view()[a][b] == distance_matrix(
                points@,
            )[a][b] by {
                lemma_distance_bound(points@[a], points@[b]);
            }
        }
        assert(grid.deep_view() =~= distance_matrix(points@));
    }
    grid
}

} // verus!
