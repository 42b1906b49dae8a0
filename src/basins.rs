//! Strict local minima of the elevation grid.
use vstd::prelude::*;
use crate::grid::{elev, rectangular, scan_ordered, scans_before, width_of, ElevationGrid, Point};

verus! {

/// `(x, y)` is an interior cell whose eight neighbours are all strictly higher.
pub open spec fn is_basin(g: Seq<Vec<i64>>, x: int, y: int) -> bool {
    &&& 1 <= x < width_of(g) - 1
    &&& 1 <= y < g.len() - 1
    &&& elev(g, x, y) < elev(g, x - 1, y)
    &&& elev(g, x, y) < elev(g, x + 1, y)
    &&& elev(g, x, y) < elev(g, x, y - 1)
    &&& elev(g, x, y) < elev(g, x, y + 1)
    &&& elev(g, x, y) < elev(g, x - 1, y - 1)
    &&& elev(g, x, y) < elev(g, x + 1, y + 1)
    &&& elev(g, x, y) < elev(g, x - 1, y + 1)
    &&& elev(g, x, y) < elev(g, x + 1, y - 1)
}

/// Whether the interior cell `(x, y)`, of elevation `current_height`, is lower
/// than all eight of its neighbours.
pub fn is_low_point(x: usize, y: usize, current_height: i64, height_map: &ElevationGrid) -> (r: bool)
    requires
        rectangular(height_map@),
        1 <= x < width_of(height_map@) - 1,
        1 <= y < height_map@.len() - 1,
        current_height == elev(height_map@, x as int, y as int),
    ensures
        r == is_basin(height_map@, x as int, y as int),
{
    assert(height_map@[y - 1]@.len() == width_of(height_map@));
    assert(height_map@[y as int]@.len() == width_of(height_map@));
    assert(height_map@[y + 1]@.len() == width_of(height_map@));
    let rows: usize = height_map.len();
    let row = &height_map[y];
    let cols: usize = row.len();
    assert(y + 1 < rows && x + 1 < cols);
    let up = &height_map[y - 1];
    let down = &height_map[y + 1];
    current_height < row[x - 1] && current_height < row[x + 1] && current_height < up[x]
        && current_height < down[x] && current_height < up[x - 1] && current_height < down[x + 1]
        && current_height < down[x - 1] && current_height < up[x + 1]
}

/// All basins of the grid, in row-major scan order.
pub fn find_basins(height_map: &ElevationGrid) -> (r: Vec<Point>)
    requires
        rectangular(height_map@),
    ensures
        forall|i: int| 0 <= i < r@.len() ==> is_basin(height_map@, (#[trigger] r@[i]).0 as int, r@[i].1 as int),
        forall|x: usize, y: usize| is_basin(height_map@, x as int, y as int) ==> r@.contains((x, y)),
        scan_ordered(r@),
{
    let mut basins: Vec<Point> = Vec::new();
    let height = height_map.len();
    if height < 3 {
        return basins;
    }
    let width = height_map[0].len();
    if width < 3 {
        return basins;
    }
    let mut y: usize = 1;
    while y < height - 1
        invariant
            rectangular(height_map@),
            height == height_map@.len(),
            width == width_of(height_map@),
            width >= 3,
            1 <= y <= height - 1,
            forall|i: int| 0 <= i < basins@.len() ==> is_basin(height_map@, (#[trigger] basins@[i]).0 as int, basins@[i].1 as int),
            forall|i: int| 0 <= i < basins@.len() ==> scans_before(#[trigger] basins@[i], 0, y as int),
            forall|bx: usize, by: usize| by < y && is_basin(height_map@, bx as int, by as int) ==> basins@.contains((bx, by)),
            scan_ordered(basins@),
        decreases height - y,
    {
        let mut x: usize = 1;
        while x < width - 1
            invariant
                rectangular(height_map@),
                height == height_map@.len(),
                width == width_of(height_map@),
                width >= 3,
                1 <= y < height - 1,
                1 <= x <= width - 1,
                forall|i: int| 0 <= i < basins@.len() ==> is_basin(height_map@, (#[trigger] basins@[i]).0 as int, basins@[i].1 as int),
                forall|i: int| 0 <= i < basins@.len() ==> scans_before(#[trigger] basins@[i], x as int, y as int),
                forall|bx: usize, by: usize| (by < y || (by == y && bx < x)) && is_basin(height_map@, bx as int, by as int) ==> basins@.contains((bx, by)),
                scan_ordered(basins@),
            decreases width - x,
        {
            assert(height_map@[y as int]@.len() == width_of(height_map@));
            let current_height = height_map[y][x];
            let ghost before = basins@;
            if is_low_point(x, y, current_height, height_map) {
                basins.push((x, y));
                assert(basins@[basins@.len() - 1] == (x, y));
            }
            assert forall|bx: usize, by: usize| (by < y || (by == y && bx < x + 1)) && is_basin(height_map@, bx as int, by as int) implies basins@.contains((bx, by)) by {
                if by == y && bx == x {
                    assert(basins@[basins@.len() - 1] == (x, y));
                } else {
                    assert(before.contains((bx, by)));
                    let k = choose|k: int| 0 <= k < before.len() && before[k] == (bx, by);
                    assert(basins@[k] == (bx, by));
                }
            }
            x = x + 1;
        }
        y = y + 1;
    }
    basins
}

} // verus!
