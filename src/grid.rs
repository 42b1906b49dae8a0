//! Shared grid representations and their mathematical model.
//!
//! Elevations are fixed-point integers: a caller that holds real-valued
//! heights scales them by a common factor before handing them over, so that
//! every comparison and difference the algorithms make is exact.
use vstd::prelude::*;

verus! {

/// A grid coordinate `(x, y)`: column, then row.
pub type Point = (usize, usize);

/// Elevations, indexed `[y][x]`.
pub type ElevationGrid = Vec<Vec<i64>>;

/// Water mask, indexed `[y][x]`; `true` means water.
pub type WaterMap = Vec<Vec<bool>>;

/// Every row has exactly `w` cells and there are `h` rows.
pub open spec fn has_shape<T>(g: Seq<Vec<T>>, w: int, h: int) -> bool {
    &&& g.len() == h
    &&& forall|y: int| 0 <= y < h ==> (#[trigger] g[y]@.len()) == w
}

/// Number of columns: the length of the first row (zero for an empty grid).
pub open spec fn width_of<T>(g: Seq<Vec<T>>) -> int {
    if g.len() > 0 {
        g[0]@.len() as int
    } else {
        0
    }
}

/// All rows have the length of the first.
pub open spec fn rectangular<T>(g: Seq<Vec<T>>) -> bool {
    has_shape(g, width_of(g), g.len() as int)
}

/// `(x, y)` addresses a cell of a `w` by `h` grid.
pub open spec fn in_bounds(w: int, h: int, x: int, y: int) -> bool {
    0 <= x < w && 0 <= y < h
}

/// Elevation at `(x, y)`.
pub open spec fn elev(g: Seq<Vec<i64>>, x: int, y: int) -> int {
    g[y]@[x] as int
}

/// The cell values of a boolean grid.
pub open spec fn flags(g: Seq<Vec<bool>>) -> Seq<Seq<bool>> {
    g.map_values(|r: Vec<bool>| r@)
}

/// `p` comes strictly before `(x, y)` in row-major scan order.
pub open spec fn scans_before(p: Point, x: int, y: int) -> bool {
    p.1 < y || (p.1 == y && p.0 < x)
}

/// The points of `s` are strictly increasing in row-major scan order.
pub open spec fn scan_ordered(s: Seq<Point>) -> bool {
    forall|i: int, j: int| 0 <= i < j < s.len() ==> scans_before(#[trigger] s[i], s[j].0 as int, (#[trigger] s[j]).1 as int)
}

/// A `w` by `h` grid of `false`.
pub fn new_flag_grid(w: usize, h: usize) -> (g: Vec<Vec<bool>>)
    ensures
        has_shape(g@, w as int, h as int),
        forall|x: int, y: int| in_bounds(w as int, h as int, x, y) ==> !(#[trigger] g@[y]@[x]),
{
    let mut g: Vec<Vec<bool>> = Vec::new();
    let mut y: usize = 0;
    while y < h
        invariant
            y <= h,
            has_shape(g@, w as int, y as int),
            forall|x: int, yy: int| in_bounds(w as int, y as int, x, yy) ==> !(#[trigger] g@[yy]@[x]),
        decreases h - y,
    {
        let row: Vec<bool> = vec![false; w];
        g.push(row);
        y = y + 1;
    }
    g
}

/// Sets the cell `(x, y)` of a boolean grid, leaving every other cell as it was.
pub fn set_flag(g: &mut Vec<Vec<bool>>, x: usize, y: usize, v: bool)
    requires
        y < old(g)@.len(),
        x < old(g)@[y as int]@.len(),
    ensures
        final(g)@.len() == old(g)@.len(),
        final(g)@[y as int]@ == old(g)@[y as int]@.update(x as int, v),
        forall|yy: int| 0 <= yy < old(g)@.len() && yy != y ==> (#[trigger] final(g)@[yy])@ == old(g)@[yy]@,
{
    g[y][x] = v;
}

} // verus!
