//! Edge lists of common boards: grids, grids with a hole, loops and
//! hexagons of triangles. A board is laid out on integer coordinates, and
//! its edges join the points that lie one step apart.

use vstd::prelude::*;

verus! {

/// The distance between two coordinates.
pub open spec fn gap(a: usize, b: usize) -> int {
    if a >= b {
        a - b
    } else {
        b - a
    }
}

/// Whether two points of a layout lie one step apart. On a square layout
/// that is one to the side or one up. On a triangular layout, whose first
/// coordinate counts half steps, it is two to the side, or one up and one
/// to the side.
pub open spec fn near(p: (usize, usize), q: (usize, usize), hex: bool) -> bool {
    ||| p.1 == q.1 && gap(p.0, q.0) == (if hex { 2int } else { 1int })
    ||| gap(p.1, q.1) == 1 && gap(p.0, q.0) == (if hex { 1int } else { 0int })
}

/// Whether one pair of points comes before another, by the first point and
/// then by the second.
pub open spec fn pair_before(e: (usize, usize), f: (usize, usize)) -> bool {
    e.0 < f.0 || (e.0 == f.0 && e.1 < f.1)
}

/// Whether `edges` lists, in order and once each, the pairs of points of
/// `points` that lie one step apart. Each edge is listed in both
/// directions.
pub open spec fn is_induced(
    edges: Seq<(usize, usize)>,
    points: Seq<(usize, usize)>,
    hex: bool,
) -> bool {
    &&& forall|i: int|
        0 <= i < edges.len() ==> (#[trigger] edges[i]).0 < points.len() && edges[i].1
            < points.len() && near(points[edges[i].0 as int], points[edges[i].1 as int], hex)
    &&& forall|a: int, b: int|
        0 <= a < points.len() && 0 <= b < points.len() && near(
            #[trigger] points[a],
            #[trigger] points[b],
            hex,
        ) ==> edges.contains((a as usize, b as usize))
    &&& forall|i: int, j: int|
        0 <= i < j < edges.len() ==> pair_before(#[trigger] edges[i], #[trigger] edges[j])
}

/// Whether two points of a loop of `n` points are neighbors.
pub open spec fn ring_near(n: int, a: int, b: int) -> bool {
    a != b && (b == (if a + 1 == n { 0 } else { a + 1 }) || a == (if b + 1 == n { 0 } else { b + 1 }))
}

/// Whether `edges` lists, in order and once each, the pairs of neighbors
/// on a loop of `n` points.
pub open spec fn is_ring(edges: Seq<(usize, usize)>, n: nat) -> bool {
    &&& forall|i: int|
        0 <= i < edges.len() ==> (#[trigger] edges[i]).0 < n && edges[i].1 < n && ring_near(
            n as int,
            edges[i].0 as int,
            edges[i].1 as int,
        )
    &&& forall|a: int, b: int|
        0 <= a < n && 0 <= b < n && #[trigger] ring_near(n as int, a, b) ==> edges.contains(
            (a as usize, b as usize),
        )
    &&& forall|i: int, j: int|
        0 <= i < j < edges.len() ==> pair_before(#[trigger] edges[i], #[trigger] edges[j])
}

/// A rectangular hole in a grid.
pub struct Hole {
    pub left: usize,
    pub top: usize,
    pub width: usize,
    pub height: usize,
}

impl Hole {
    /// Whether the hole covers the point at column `x` of row `y`.
    pub open spec fn covers(self, x: int, y: int) -> bool {
        self.left <= x < self.left + self.width && self.top <= y < self.top + self.height
    }
}

/// The first `upto` columns of row `y` of a grid, without the hole.
pub open spec fn grid_row(y: usize, upto: nat, hole: Hole) -> Seq<(usize, usize)>
    decreases upto,
{
    if upto == 0 {
        Seq::empty()
    } else {
        let rest = grid_row(y, (upto - 1) as nat, hole);
        if hole.covers(upto - 1, y as int) {
            rest
        } else {
            rest.push(((upto - 1) as usize, y))
        }
    }
}

/// The first `rows` rows of a grid of the given width, row after row,
/// without the hole.
pub open spec fn grid_layout(width: usize, rows: nat, hole: Hole) -> Seq<(usize, usize)>
    decreases rows,
{
    if rows == 0 {
        Seq::empty()
    } else {
        grid_layout(width, (rows - 1) as nat, hole) + grid_row(
            (rows - 1) as usize,
            width as nat,
            hole,
        )
    }
}

/// The hole of a grid that has none.
pub open spec fn no_hole() -> Hole {
    Hole { left: 0, top: 0, width: 0, height: 0 }
}

/// The hole of the given size in the middle of a grid.
pub open spec fn middle_hole(width: usize, height: usize, hole_width: usize, hole_height: usize) -> Hole {
    Hole {
        left: ((width - hole_width + 1) / 2) as usize,
        top: ((height - hole_height + 1) / 2) as usize,
        width: hole_width,
        height: hole_height,
    }
}

/// The number of points in row `row` of a hexagon with `layers` layers.
pub open spec fn hex_width(layers: usize, row: int) -> int {
    if row <= layers {
        layers + 1 + row
    } else {
        3 * layers + 1 - row
    }
}

/// The first `upto` points of row `row` of a hexagon, in half steps from
/// the left edge of its widest row.
pub open spec fn hex_row(layers: usize, row: usize, upto: nat) -> Seq<(usize, usize)> {
    Seq::new(
        upto,
        |k: int| ((2 * layers + 1 - hex_width(layers, row as int) + 2 * k) as usize, row),
    )
}

/// The first `rows` rows of a hexagon with `layers` layers.
pub open spec fn hex_layout(layers: usize, rows: nat) -> Seq<(usize, usize)>
    decreases rows,
{
    if rows == 0 {
        Seq::empty()
    } else {
        hex_layout(layers, (rows - 1) as nat) + hex_row(
            layers,
            (rows - 1) as usize,
            hex_width(layers, rows - 1) as nat,
        )
    }
}

fn is_near(p: (usize, usize), q: (usize, usize), hex: bool) -> (close: bool)
    ensures
        close == near(p, q, hex),
{
    let dx = if p.0 >= q.0 { p.0 - q.0 } else { q.0 - p.0 };
    let dy = if p.1 >= q.1 { p.1 - q.1 } else { q.1 - p.1 };
    if hex {
        (dy == 0 && dx == 2) || (dy == 1 && dx == 1)
    } else {
        (dy == 0 && dx == 1) || (dy == 1 && dx == 0)
    }
}

/// The edges between the points of a layout that lie one step apart.
pub fn induced_edges(points: &Vec<(usize, usize)>, hex: bool) -> (edges: Vec<(usize, usize)>)
    ensures
        is_induced(edges@, points@, hex),
{
    let n = points.len();
    let mut edges: Vec<(usize, usize)> = Vec::new();
    let mut a: usize = 0;
    while a < n
        invariant
            n == points@.len(),
            a <= n,
            forall|i: int|
                0 <= i < edges@.len() ==> (#[trigger] edges@[i]).0 < a && edges@[i].1 < n && near(
                    points@[edges@[i].0 as int],
                    points@[edges@[i].1 as int],
                    hex,
                ),
            forall|x: int, y: int|
                0 <= x < a && 0 <= y < n && near(#[trigger] points@[x], #[trigger] points@[y], hex)
                    ==> edges@.contains((x as usize, y as usize)),
            forall|i: int, j: int|
                0 <= i < j < edges@.len() ==> pair_before(
                    #[trigger] edges@[i],
                    #[trigger] edges@[j],
                ),
        decreases n - a,
    {
        let mut b: usize = 0;
        while b < n
            invariant
                n == points@.len(),
                a < n,
                b <= n,
                forall|i: int|
                    0 <= i < edges@.len() ==> ((#[trigger] edges@[i]).0 < a || (edges@[i].0 == a
                        && edges@[i].1 < b)) && edges@[i].1 < n && near(
                        points@[edges@[i].0 as int],
                        points@[edges@[i].1 as int],
                        hex,
                    ),
                forall|x: int, y: int|
                    0 <= x <= a && 0 <= y < n && (x < a || y < b) && near(
                        #[trigger] points@[x],
                        #[trigger] points@[y],
                        hex,
                    ) ==> edges@.contains((x as usize, y as usize)),
                forall|i: int, j: int|
                    0 <= i < j < edges@.len() ==> pair_before(
                        #[trigger] edges@[i],
                        #[trigger] edges@[j],
                    ),
            decreases n - b,
        {
            if is_near(points[a], points[b], hex) {
                let ghost before = edges@;
                edges.push((a, b));
                proof {
                    assert(edges@[before.len() as int] == (a, b));
                    assert forall|x: int, y: int|
                        0 <= x <= a && 0 <= y < n && (x < a || y < b + 1) && near(
                            #[trigger] points@[x],
                            #[trigger] points@[y],
                            hex,
                        ) implies edges@.contains((x as usize, y as usize)) by {
                        if x == a && y == b {
                        } else {
                            assert(before.contains((x as usize, y as usize)));
                            let w = choose|w: int|
                                0 <= w < before.len() && before[w] == (x as usize, y as usize);
                            assert(edges@[w] == (x as usize, y as usize));
                        }
                    }
                }
            }
            b += 1;
        }
        a += 1;
    }
    edges
}

/// The rows of a grid of `width` by `height` points without the hole.
fn grid_points(
    width: usize,
    height: usize,
    hole_left: usize,
    hole_top: usize,
    hole_width: usize,
    hole_height: usize,
) -> (points: Vec<(usize, usize)>)
    requires
        hole_left + hole_width <= usize::MAX,
        hole_top + hole_height <= usize::MAX,
    ensures
        points@ == grid_layout(
            width,
            height as nat,
            (Hole { left: hole_left, top: hole_top, width: hole_width, height: hole_height }),
        ),
{
    let ghost hole = Hole {
        left: hole_left,
        top: hole_top,
        width: hole_width,
        height: hole_height,
    };
    let mut points: Vec<(usize, usize)> = Vec::new();
    let mut y: usize = 0;
    while y < height
        invariant
            y <= height,
            hole_left + hole_width <= usize::MAX,
            hole_top + hole_height <= usize::MAX,
            hole == (Hole {
                left: hole_left,
                top: hole_top,
                width: hole_width,
                height: hole_height,
            }),
            points@ == grid_layout(width, y as nat, hole),
        decreases height - y,
    {
        let ghost done = points@;
        let mut x: usize = 0;
        while x < width
            invariant
                x <= width,
                y < height,
                hole_left + hole_width <= usize::MAX,
                hole_top + hole_height <= usize::MAX,
                hole == (Hole {
                    left: hole_left,
                    top: hole_top,
                    width: hole_width,
                    height: hole_height,
                }),
                points@ == done + grid_row(y, x as nat, hole),
            decreases width - x,
        {
            if x < hole_left || x >= hole_left + hole_width || y < hole_top || y >= hole_top
                + hole_height {
                points.push((x, y));
                assert(points@ =~= done + grid_row(y, (x + 1) as nat, hole));
            }
            x += 1;
        }
        y += 1;
    }
    points
}

/// The edges of a grid of `width` by `height` points.
pub fn edges_rect(width: usize, height: usize) -> (edges: Vec<(usize, usize)>)
    ensures
        is_induced(edges@, grid_layout(width, height as nat, no_hole()), false),
{
    let points = grid_points(width, height, 0, 0, 0, 0);
    induced_edges(&points, false)
}

/// The edges of a grid with a hole of the given size in its middle.
pub fn edges_donut(width: usize, height: usize, hole_width: usize, hole_height: usize) -> (edges:
    Vec<(usize, usize)>)
    requires
        hole_width <= width < usize::MAX,
        hole_height <= height < usize::MAX,
    ensures
        is_induced(
            edges@,
            grid_layout(
                width,
                height as nat,
                middle_hole(width, height, hole_width, hole_height),
            ),
            false,
        ),
{
    let hole_left = (width - hole_width + 1) / 2;
    let hole_top = (height - hole_height + 1) / 2;
    let points = grid_points(width, height, hole_left, hole_top, hole_width, hole_height);
    induced_edges(&points, false)
}

/// The edges of a loop of `n` points.
pub fn edges_loop(n: usize) -> (edges: Vec<(usize, usize)>)
    ensures
        is_ring(edges@, n as nat),
{
    let mut edges: Vec<(usize, usize)> = Vec::new();
    let mut a: usize = 0;
    while a < n
        invariant
            a <= n,
            forall|i: int|
                0 <= i < edges@.len() ==> (#[trigger] edges@[i]).0 < a && edges@[i].1 < n
                    && ring_near(n as int, edges@[i].0 as int, edges@[i].1 as int),
            forall|x: int, y: int|
                0 <= x < a && 0 <= y < n && #[trigger] ring_near(n as int, x, y)
                    ==> edges@.contains((x as usize, y as usize)),
            forall|i: int, j: int|
                0 <= i < j < edges@.len() ==> pair_before(
                    #[trigger] edges@[i],
                    #[trigger] edges@[j],
                ),
        decreases n - a,
    {
        let mut b: usize = 0;
        while b < n
            invariant
                a < n,
                b <= n,
                forall|i: int|
                    0 <= i < edges@.len() ==> ((#[trigger] edges@[i]).0 < a || (edges@[i].0 == a
                        && edges@[i].1 < b)) && edges@[i].1 < n && ring_near(
                        n as int,
                        edges@[i].0 as int,
                        edges@[i].1 as int,
                    ),
                forall|x: int, y: int|
                    0 <= x <= a && 0 <= y < n && (x < a || y < b) && #[trigger] ring_near(
                        n as int,
                        x,
                        y,
                    ) ==> edges@.contains((x as usize, y as usize)),
                forall|i: int, j: int|
                    0 <= i < j < edges@.len() ==> pair_before(
                        #[trigger] edges@[i],
                        #[trigger] edges@[j],
                    ),
            decreases n - b,
        {
            let after_a = if a + 1 == n { 0 } else { a + 1 };
            let after_b = if b + 1 == n { 0 } else { b + 1 };
            if a != b && (b == after_a || a == after_b) {
                let ghost before = edges@;
                edges.push((a, b));
                proof {
                    assert(edges@[before.len() as int] == (a, b));
                    assert forall|x: int, y: int|
                        0 <= x <= a && 0 <= y < n && (x < a || y < b + 1) && #[trigger] ring_near(
                            n as int,
                            x,
                            y,
                        ) implies edges@.contains((x as usize, y as usize)) by {
                        if x == a && y == b {
                        } else {
                            assert(before.contains((x as usize, y as usize)));
                            let w = choose|w: int|
                                0 <= w < before.len() && before[w] == (x as usize, y as usize);
                            assert(edges@[w] == (x as usize, y as usize));
                        }
                    }
                }
            }
            b += 1;
        }
        a += 1;
    }
    edges
}

/// The edges of a hexagon of triangles with `layers` layers around its
/// middle point.
pub fn edges_trihex(layers: usize) -> (edges: Vec<(usize, usize)>)
    requires
        4 * layers + 4 <= usize::MAX,
    ensures
        is_induced(edges@, hex_layout(layers, (2 * layers + 1) as nat), true),
{
    let row_count = layers * 2 + 1;
    let mut points: Vec<(usize, usize)> = Vec::new();
    let mut row: usize = 0;
    while row < row_count
        invariant
            4 * layers + 4 <= usize::MAX,
            row_count == 2 * layers + 1,
            row <= row_count,
            points@ == hex_layout(layers, row as nat),
        decreases row_count - row,
    {
        let width = if row <= layers { layers + 1 + row } else { 3 * layers + 1 - row };
        let start = 2 * layers + 1 - width;
        let ghost done = points@;
        let mut k: usize = 0;
        while k < width
            invariant
                4 * layers + 4 <= usize::MAX,
                row < 2 * layers + 1,
                width == hex_width(layers, row as int),
                1 <= width <= 2 * layers + 1,
                start == 2 * layers + 1 - width,
                k <= width,
                points@ == done + hex_row(layers, row, k as nat),
            decreases width - k,
        {
            points.push((start + 2 * k, row));
            assert(points@ =~= done + hex_row(layers, row, (k + 1) as nat));
            k += 1;
        }
        row += 1;
    }
    induced_edges(&points, true)
}

} // verus!
