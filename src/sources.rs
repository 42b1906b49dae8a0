//! Candidate river origins: high cells with a steep drop to a side neighbour.
use vstd::prelude::*;
use crate::grid::{elev, rectangular, scan_ordered, scans_before, width_of, ElevationGrid, Point};

verus! {

/// The larger of two integers.
pub open spec fn max_of(a: int, b: int) -> int {
    if a >= b {
        a
    } else {
        b
    }
}

/// The steepest drop from `(x, y)` to one of its four side neighbours, or zero
/// when none of them is lower.
pub open spec fn max_downhill(g: Seq<Vec<i64>>, x: int, y: int) -> int {
    let c = elev(g, x, y);
    max_of(
        max_of(0, max_of(c - elev(g, x - 1, y), c - elev(g, x + 1, y))),
        max_of(c - elev(g, x, y - 1), c - elev(g, x, y + 1)),
    )
}

/// `(x, y)` is an interior cell higher than `elevation_threshold` whose
/// steepest drop exceeds `slope_threshold`.
pub open spec fn is_source(g: Seq<Vec<i64>>, x: int, y: int, elevation_threshold: int, slope_threshold: int) -> bool {
    &&& 1 <= x < width_of(g) - 1
    &&& 1 <= y < g.len() - 1
    &&& elev(g, x, y) > elevation_threshold
    &&& max_downhill(g, x, y) > slope_threshold
}

/// The steepest drop from the interior cell `(x, y)`, computed without overflow.
fn steepest_drop(x: usize, y: usize, height_map: &ElevationGrid) -> (r: i128)
    requires
        rectangular(height_map@),
        1 <= x < width_of(height_map@) - 1,
        1 <= y < height_map@.len() - 1,
    ensures
        r as int == max_downhill(height_map@, x as int, y as int),
{
    assert(height_map@[y - 1]@.len() == width_of(height_map@));
    assert(height_map@[y as int]@.len() == width_of(height_map@));
    assert(height_map@[y + 1]@.len() == width_of(height_map@));
    let rows: usize = height_map.len();
    let row = &height_map[y];
    let cols: usize = row.len();
    assert(y + 1 < rows && x + 1 < cols);
    let current = row[x] as i128;
    let neighbours: [i64; 4] = [row[x - 1], row[x + 1], height_map[y - 1][x], height_map[y + 1][x]];
    let mut max_slope: i128 = 0;
    let mut k: usize = 0;
    while k < 4
        invariant
            0 <= k <= 4,
            current == elev(height_map@, x as int, y as int),
            neighbours@ == seq![
                height_map@[y as int]@[x - 1],
                height_map@[y as int]@[x + 1],
                height_map@[y - 1]@[x as int],
                height_map@[y + 1]@[x as int],
            ],
            k == 0 ==> max_slope == 0,
            k == 1 ==> max_slope == max_of(0, current - neighbours@[0]),
            k == 2 ==> max_slope == max_of(0, max_of(current - neighbours@[0], current - neighbours@[1])),
            k == 3 ==> max_slope == max_of(
                max_of(0, max_of(current - neighbours@[0], current - neighbours@[1])),
                current - neighbours@[2],
            ),
            k == 4 ==> max_slope == max_downhill(height_map@, x as int, y as int),
        decreases 4 - k,
    {
        let slope: i128 = current - neighbours[k] as i128;
        if slope > max_slope {
            max_slope = slope;
        }
        k = k + 1;
    }
    max_slope
}

/// All river sources of the grid, in row-major scan order.
pub fn determine_river_sources(height_map: &ElevationGrid, elevation_threshold: i64, slope_threshold: i64) -> (r: Vec<Point>)
    requires
        rectangular(height_map@),
    ensures
        forall|i: int| 0 <= i < r@.len() ==> is_source(height_map@, (#[trigger] r@[i]).0 as int, r@[i].1 as int, elevation_threshold as int, slope_threshold as int),
        forall|x: usize, y: usize| is_source(height_map@, x as int, y as int, elevation_threshold as int, slope_threshold as int) ==> r@.contains((x, y)),
        scan_ordered(r@),
{
    let mut sources: Vec<Point> = Vec::new();
    let height = height_map.len();
    if height < 3 {
        return sources;
    }
    let width = height_map[0].len();
    if width < 3 {
        return sources;
    }
    let ghost et = elevation_threshold as int;
    let ghost st = slope_threshold as int;
    let mut y: usize = 1;
    while y < height - 1
        invariant
            rectangular(height_map@),
            et == elevation_threshold as int,
            st == slope_threshold as int,
            height == height_map@.len(),
            width == width_of(height_map@),
            width >= 3,
            1 <= y <= height - 1,
            forall|i: int| 0 <= i < sources@.len() ==> is_source(height_map@, (#[trigger] sources@[i]).0 as int, sources@[i].1 as int, et, st),
            forall|i: int| 0 <= i < sources@.len() ==> scans_before(#[trigger] sources@[i], 0, y as int),
            forall|bx: usize, by: usize| by < y && is_source(height_map@, bx as int, by as int, et, st) ==> sources@.contains((bx, by)),
            scan_ordered(sources@),
        decreases height - y,
    {
        let mut x: usize = 1;
        while x < width - 1
            invariant
                rectangular(height_map@),
                et == elevation_threshold as int,
                st == slope_threshold as int,
                height == height_map@.len(),
                width == width_of(height_map@),
                width >= 3,
                1 <= y < height - 1,
                1 <= x <= width - 1,
                forall|i: int| 0 <= i < sources@.len() ==> is_source(height_map@, (#[trigger] sources@[i]).0 as int, sources@[i].1 as int, et, st),
                forall|i: int| 0 <= i < sources@.len() ==> scans_before(#[trigger] sources@[i], x as int, y as int),
                forall|bx: usize, by: usize| (by < y || (by == y && bx < x)) && is_source(height_map@, bx as int, by as int, et, st) ==> sources@.contains((bx, by)),
                scan_ordered(sources@),
            decreases width - x,
        {
            assert(height_map@[y as int]@.len() == width_of(height_map@));
            let current_height = height_map[y][x];
            let ghost before = sources@;
            let mut qualifies = false;
            if current_height > elevation_threshold {
                let max_slope = steepest_drop(x, y, height_map);
                qualifies = max_slope > slope_threshold as i128;
            }
            assert(qualifies == is_source(height_map@, x as int, y as int, et, st));
            if qualifies {
                sources.push((x, y));
                assert(sources@[sources@.len() - 1] == (x, y));
            }
            assert forall|bx: usize, by: usize| (by < y || (by == y && bx < x + 1)) && is_source(height_map@, bx as int, by as int, et, st) implies sources@.contains((bx, by)) by {
                if by == y && bx == x {
                    assert(sources@[sources@.len() - 1] == (x, y));
                } else {
                    assert(before.contains((bx, by)));
                    let k = choose|k: int| 0 <= k < before.len() && before[k] == (bx, by);
                    assert(sources@[k] == (bx, by));
                }
            }
            x = x + 1;
        }
        y = y + 1;
    }
    sources
}

} // verus!
