//! Downhill flow of rivers from their sources, with path merging.
use vstd::prelude::*;
use rand::rngs::StdRng;
use rand::seq::SliceRandom;
use crate::count::{grid_count, lemma_grid_count_bound, lemma_grid_count_update, lemma_row_count_set};
use crate::water_map::MapParams;
use crate::grid::{elev, flags, has_shape, in_bounds, new_flag_grid, rectangular, set_flag, width_of, ElevationGrid, Point};

verus! {

/// rand's seedable generator `StdRng`, carried through opaquely: the flow walk
/// only hands it to the shuffle.
#[verifier::external_type_specification]
#[verifier::external_body]
pub struct ExStdRng(StdRng);

/// A river: the cells it runs through, source first, and its volume.
pub struct RiverPath {
    pub points: Vec<Point>,
    pub volume: usize,
}

/// The side neighbour of `p` in direction `d`: 0 left, 1 right, 2 up, 3 down.
pub open spec fn neighbor(p: Point, d: int) -> (int, int) {
    if d == 0 {
        (p.0 - 1, p.1 as int)
    } else if d == 1 {
        (p.0 + 1, p.1 as int)
    } else if d == 2 {
        (p.0 as int, p.1 - 1)
    } else {
        (p.0 as int, p.1 + 1)
    }
}

/// `o` lists each of the four directions exactly once.
pub open spec fn is_direction_order(o: Seq<usize>) -> bool {
    &&& o.len() == 4
    &&& forall|i: int| 0 <= i < 4 ==> #[trigger] o[i] < 4
    &&& forall|i: int, j: int| 0 <= i < j < 4 ==> o[i] != o[j]
}

/// `c` is a cell of the grid that no flow has claimed yet.
pub open spec fn is_open(g: Seq<Vec<i64>>, vis: Seq<Vec<bool>>, c: (int, int)) -> bool {
    in_bounds(width_of(g), g.len() as int, c.0, c.1) && !vis[c.1]@[c.0]
}

/// The open cells of a visited grid, as a predicate.
pub open spec fn open_in(g: Seq<Vec<i64>>, vis: Seq<Vec<bool>>) -> spec_fn((int, int)) -> bool {
    |c: (int, int)| is_open(g, vis, c)
}

/// No side neighbour of `p` is open.
pub open spec fn stuck(g: Seq<Vec<i64>>, vis: Seq<Vec<bool>>, p: Point) -> bool {
    forall|d: int| 0 <= d < 4 ==> !#[trigger] is_open(g, vis, neighbor(p, d))
}

/// The `k`-th neighbour in `order` is open.
pub open spec fn candidate(open: spec_fn((int, int)) -> bool, cur: Point, order: Seq<usize>, k: int) -> bool {
    open(neighbor(cur, order[k] as int))
}

/// Elevation of the `k`-th neighbour in `order`.
pub open spec fn cand_elev(g: Seq<Vec<i64>>, cur: Point, order: Seq<usize>, k: int) -> int {
    elev(g, neighbor(cur, order[k] as int).0, neighbor(cur, order[k] as int).1)
}

/// Some open neighbour is strictly lower than `cur`.
pub open spec fn can_descend(g: Seq<Vec<i64>>, open: spec_fn((int, int)) -> bool, cur: Point, order: Seq<usize>) -> bool {
    exists|k: int| 0 <= k < 4 && #[trigger] candidate(open, cur, order, k) && cand_elev(g, cur, order, k) < elev(g, cur.0 as int, cur.1 as int)
}

/// The `k`-th neighbour is the lowest open one, lower than `cur`, and the first
/// in `order` among those of its elevation.
pub open spec fn steepest(g: Seq<Vec<i64>>, open: spec_fn((int, int)) -> bool, cur: Point, order: Seq<usize>, k: int) -> bool {
    &&& 0 <= k < 4
    &&& candidate(open, cur, order, k)
    &&& cand_elev(g, cur, order, k) < elev(g, cur.0 as int, cur.1 as int)
    &&& forall|j: int| 0 <= j < 4 && #[trigger] candidate(open, cur, order, j) ==> cand_elev(g, cur, order, k) <= cand_elev(g, cur, order, j)
    &&& forall|j: int| 0 <= j < k && #[trigger] candidate(open, cur, order, j) ==> cand_elev(g, cur, order, k) < cand_elev(g, cur, order, j)
}

/// The `k`-th neighbour is the first open one in `order`.
pub open spec fn first_open(open: spec_fn((int, int)) -> bool, cur: Point, order: Seq<usize>, k: int) -> bool {
    &&& 0 <= k < 4
    &&& candidate(open, cur, order, k)
    &&& forall|j: int| 0 <= j < k ==> !#[trigger] candidate(open, cur, order, j)
}

/// The `k`-th neighbour is where the flow goes next: the steepest descent where
/// there is one, else the first open neighbour.
pub open spec fn is_flow_choice(g: Seq<Vec<i64>>, open: spec_fn((int, int)) -> bool, cur: Point, order: Seq<usize>, k: int) -> bool {
    if can_descend(g, open, cur, order) {
        steepest(g, open, cur, order, k)
    } else {
        first_open(open, cur, order, k)
    }
}

/// Every direction appears in a direction order.
pub proof fn lemma_order_covers(order: Seq<usize>, d: int)
    requires
        is_direction_order(order),
        0 <= d < 4,
    ensures
        exists|k: int| 0 <= k < 4 && order[k] == d,
{
    let (a, b, c, e) = (order[0], order[1], order[2], order[3]);
    assert(a < 4 && b < 4 && c < 4 && e < 4);
    assert(a != b && a != c && a != e && b != c && b != e && c != e);
    if a != d && b != d && c != d {
        assert(e == d);
        assert(order[3] == d);
    } else if a == d {
        assert(order[0] == d);
    } else if b == d {
        assert(order[1] == d);
    } else {
        assert(order[2] == d);
    }
}

/// `vis2` is `vis` with the cell `p` set.
pub open spec fn marked(vis: Seq<Vec<bool>>, vis2: Seq<Vec<bool>>, p: Point) -> bool {
    &&& vis2.len() == vis.len()
    &&& vis2[p.1 as int]@ == vis[p.1 as int]@.update(p.0 as int, true)
    &&& forall|y: int| 0 <= y < vis.len() && y != p.1 ==> (#[trigger] vis2[y])@ == vis[y]@
}

/// Relies on rand's `SliceRandom::shuffle`, which permutes a slice in place:
/// the four directions come back in a random order, each once.
#[verifier::external_body]
fn shuffled_directions(rng: &mut StdRng) -> (r: [usize; 4])
    ensures
        is_direction_order(r@),
{
    let mut dirs: [usize; 4] = [0, 1, 2, 3];
    dirs.shuffle(rng);
    dirs
}

/// The neighbour of `(x, y)` in direction `d`, if it lies in a `w` by `h` grid.
fn neighbor_cell(x: usize, y: usize, d: usize, w: usize, h: usize) -> (r: Option<Point>)
    requires
        d < 4,
    ensures
        match r {
            Some(p) => in_bounds(w as int, h as int, neighbor((x, y), d as int).0, neighbor((x, y), d as int).1)
                && (p.0 as int, p.1 as int) == neighbor((x, y), d as int),
            None => !in_bounds(w as int, h as int, neighbor((x, y), d as int).0, neighbor((x, y), d as int).1),
        },
{
    if d == 0 {
        if x >= 1 && x - 1 < w && y < h { Some((x - 1, y)) } else { None }
    } else if d == 1 {
        if x < w && x + 1 < w && y < h { Some((x + 1, y)) } else { None }
    } else if d == 2 {
        if y >= 1 && y - 1 < h && x < w { Some((x, y - 1)) } else { None }
    } else {
        if y < h && y + 1 < h && x < w { Some((x, y + 1)) } else { None }
    }
}

/// Picks the next cell of a flow from `current`, trying the side neighbours in
/// `order`, and marks it visited. `None` when no neighbour is open.
pub fn find_next_flow_point(current: &Point, height_map: &ElevationGrid, visited: &mut Vec<Vec<bool>>, order: &[usize; 4]) -> (r: Option<Point>)
    requires
        rectangular(height_map@),
        has_shape(old(visited)@, width_of(height_map@), height_map@.len() as int),
        in_bounds(width_of(height_map@), height_map@.len() as int, current.0 as int, current.1 as int),
        is_direction_order(order@),
    ensures
        r is None <==> forall|k: int| 0 <= k < 4 ==> !#[trigger] candidate(open_in(height_map@, old(visited)@), *current, order@, k),
        r is None ==> final(visited)@ == old(visited)@,
        r is None ==> stuck(height_map@, old(visited)@, *current),
        r matches Some(p) ==> exists|k: int| #[trigger] is_flow_choice(height_map@, open_in(height_map@, old(visited)@), *current, order@, k)
            && (p.0 as int, p.1 as int) == neighbor(*current, order@[k] as int),
        r matches Some(p) ==> is_open(height_map@, old(visited)@, (p.0 as int, p.1 as int)),
        r matches Some(p) ==> marked(old(visited)@, final(visited)@, p),
{
    let ghost g = height_map@;
    let ghost vis = visited@;
    let ghost op = open_in(g, vis);
    let (x, y) = *current;
    let height = height_map.len();
    let width = height_map[0].len();
    assert(height_map@[y as int]@.len() == width_of(g));
    let current_height = height_map[y][x];
    let mut best: Option<usize> = None;
    let mut best_h: i64 = 0;
    let mut first: Option<usize> = None;
    let mut k: usize = 0;
    while k < 4
        invariant
            g == height_map@,
            vis == visited@,
            op == open_in(g, vis),
            x == current.0,
            y == current.1,
            rectangular(g),
            has_shape(vis, width_of(g), g.len() as int),
            width as int == width_of(g),
            height as int == g.len(),
            is_direction_order(order@),
            k <= 4,
            best is None <==> first is None,
            first is None ==> forall|j: int| 0 <= j < k ==> !#[trigger] candidate(op, *current, order@, j),
            first matches Some(f) ==> f < k && candidate(op, *current, order@, f as int)
                && forall|j: int| 0 <= j < f ==> !#[trigger] candidate(op, *current, order@, j),
            best matches Some(b) ==> b < k && candidate(op, *current, order@, b as int)
                && best_h as int == cand_elev(g, *current, order@, b as int)
                && (forall|j: int| 0 <= j < k && #[trigger] candidate(op, *current, order@, j) ==> best_h <= cand_elev(g, *current, order@, j))
                && (forall|j: int| 0 <= j < b && #[trigger] candidate(op, *current, order@, j) ==> best_h < cand_elev(g, *current, order@, j)),
        decreases 4 - k,
    {
        let d = order[k];
        let mut open = false;
        let mut nh: i64 = 0;
        if let Some((nx, ny)) = neighbor_cell(x, y, d, width, height) {
            assert(visited@[ny as int]@.len() == width_of(g));
            assert(height_map@[ny as int]@.len() == width_of(g));
            if !visited[ny][nx] {
                open = true;
                nh = height_map[ny][nx];
            }
        }
        assert(open == candidate(op, *current, order@, k as int));
        assert(open ==> nh as int == cand_elev(g, *current, order@, k as int));
        if open {
            if first.is_none() {
                first = Some(k);
            }
            if best.is_none() || nh < best_h {
                best = Some(k);
                best_h = nh;
            }
        }
        k = k + 1;
    }
    let chosen: Option<usize> = match best {
        Some(b) => {
            if best_h < current_height {
                Some(b)
            } else {
                first
            }
        },
        None => None,
    };
    match chosen {
        None => {
            proof {
                assert forall|d: int| 0 <= d < 4 implies !#[trigger] is_open(g, vis, neighbor(*current, d)) by {
                    lemma_order_covers(order@, d);
                    let k = choose|k: int| 0 <= k < 4 && order@[k] == d;
                    assert(!candidate(op, *current, order@, k));
                }
            }
            None
        },
        Some(c) => {
            proof {
                if best_h < current_height && chosen == best {
                    assert(steepest(g, op, *current, order@, c as int));
                } else {
                    assert(!can_descend(g, op, *current, order@));
                    assert(first_open(op, *current, order@, c as int));
                }
                assert(is_flow_choice(g, op, *current, order@, c as int));
            }
            match neighbor_cell(x, y, order[c], width, height) {
                Some(p) => {
                    set_flag(visited, p.0, p.1, true);
                    Some(p)
                },
                None => None,
            }
        },
    }
}

/// Index of the first path whose terminus is `new_point`, if any.
pub fn find_connecting_path(new_point: &Point, river_paths: &Vec<RiverPath>) -> (r: Option<usize>)
    ensures
        r matches Some(i) ==> i < river_paths@.len() && river_paths@[i as int].points@.len() > 0
            && river_paths@[i as int].points@.last() == *new_point,
        r matches Some(i) ==> forall|j: int| 0 <= j < i ==> !(#[trigger] river_paths@[j].points@.len() > 0
            && river_paths@[j].points@.last() == *new_point),
        r is None ==> forall|j: int| 0 <= j < river_paths@.len() ==> !(#[trigger] river_paths@[j].points@.len() > 0
            && river_paths@[j].points@.last() == *new_point),
{
    let mut i: usize = 0;
    while i < river_paths.len()
        invariant
            i <= river_paths@.len(),
            forall|j: int| 0 <= j < i ==> !(#[trigger] river_paths@[j].points@.len() > 0
                && river_paths@[j].points@.last() == *new_point),
        decreases river_paths@.len() - i,
    {
        let n = river_paths[i].points.len();
        if n > 0 && river_paths[i].points[n - 1].0 == new_point.0 && river_paths[i].points[n - 1].1 == new_point.1 {
            return Some(i);
        }
        i = i + 1;
    }
    None
}

/// Whether `point` is one of `basins`.
pub fn _is_basin(point: &Point, basins: &Vec<Point>) -> (r: bool)
    ensures
        r == basins@.contains(*point),
{
    let mut i: usize = 0;
    while i < basins.len()
        invariant
            i <= basins@.len(),
            forall|j: int| 0 <= j < i ==> basins@[j] != *point,
        decreases basins@.len() - i,
    {
        if basins[i].0 == point.0 && basins[i].1 == point.1 {
            return true;
        }
        i = i + 1;
    }
    false
}

/// The integer coordinates of a point.
pub open spec fn at(p: Point) -> (int, int) {
    (p.0 as int, p.1 as int)
}

/// `a` and `b` are side neighbours.
pub open spec fn side_neighbors(a: Point, b: Point) -> bool {
    ||| a.0 == b.0 && (a.1 + 1 == b.1 || b.1 + 1 == a.1)
    ||| a.1 == b.1 && (a.0 + 1 == b.0 || b.0 + 1 == a.0)
}

/// The cells open after a walk has gone over `prefix` from a grid `vis0`: open
/// in `vis0` and not one of the steps after the source.
pub open spec fn open_after(g: Seq<Vec<i64>>, vis0: Seq<Vec<bool>>, prefix: Seq<Point>) -> spec_fn((int, int)) -> bool {
    |c: (int, int)| is_open(g, vis0, c) && !(exists|j: int| 1 <= j < prefix.len() && at(prefix[j]) == c)
}

/// `next` is the flow choice from `cur`, for some direction order, among the
/// cells `open`.
pub open spec fn flow_step(g: Seq<Vec<i64>>, open: spec_fn((int, int)) -> bool, cur: Point, next: Point) -> bool {
    exists|order: Seq<usize>, k: int| is_direction_order(order) && #[trigger] is_flow_choice(g, open, cur, order, k)
        && at(next) == neighbor(cur, order[k] as int)
}

/// Step `i` of walk `w` goes to a side neighbour, chosen by the flow rule
/// against the visited grid as it stood before that step.
pub open spec fn step_ok(g: Seq<Vec<i64>>, vis0: Seq<Vec<bool>>, w: Seq<Point>, i: int) -> bool {
    &&& side_neighbors(w[i], w[i + 1])
    &&& flow_step(g, open_after(g, vis0, w.subrange(0, i + 1)), w[i], w[i + 1])
}

/// `p` is a cell that was open before a walk (in `vis0`) and is claimed after it (in `vis`).
pub open spec fn fresh_step(g: Seq<Vec<i64>>, vis0: Seq<Vec<bool>>, vis: Seq<Vec<bool>>, p: Point) -> bool {
    &&& in_bounds(width_of(g), g.len() as int, p.0 as int, p.1 as int)
    &&& !vis0[p.1 as int]@[p.0 as int]
    &&& vis[p.1 as int]@[p.0 as int]
}

/// A walk `w` (source first, then every cell the flow rule picked) took the
/// visited grid from `vis0` to `vis`: each step follows the flow rule, claims a
/// cell that was open, and `vis` is `vis0` plus exactly those cells.
pub open spec fn walk_ok(g: Seq<Vec<i64>>, vis0: Seq<Vec<bool>>, vis: Seq<Vec<bool>>, w: Seq<Point>) -> bool {
    &&& has_shape(vis, width_of(g), g.len() as int)
    &&& w.len() >= 1
    &&& in_bounds(width_of(g), g.len() as int, w[0].0 as int, w[0].1 as int)
    &&& forall|i: int| 0 <= i < w.len() - 1 ==> #[trigger] step_ok(g, vis0, w, i)
    &&& forall|i: int| 1 <= i < w.len() ==> fresh_step(g, vis0, vis, #[trigger] w[i])
    &&& forall|x: int, y: int| in_bounds(width_of(g), g.len() as int, x, y) ==>
        (#[trigger] vis[y]@[x]) == (vis0[y]@[x] || exists|j: int| 1 <= j < w.len() && at(w[j]) == (x, y))
    &&& grid_count(flags(vis)) == grid_count(flags(vis0)) + w.len() - 1
}

/// Every cell claimed in `vis` is still claimed in `vis2`.
pub open spec fn grows(g: Seq<Vec<i64>>, vis: Seq<Vec<bool>>, vis2: Seq<Vec<bool>>) -> bool {
    forall|x: int, y: int| in_bounds(width_of(g), g.len() as int, x, y) && vis[y]@[x] ==> (#[trigger] vis2[y]@[x])
}

/// `p` ends at `q`.
pub open spec fn ends_at(p: RiverPath, q: Point) -> bool {
    p.points@.len() > 0 && p.points@.last() == q
}

/// Some path of `paths` ends at `q`.
pub open spec fn ends_any(paths: Seq<RiverPath>, q: Point) -> bool {
    exists|j: int| 0 <= j < paths.len() && #[trigger] ends_at(paths[j], q)
}

/// `paths1` is `paths0` with the walk `cur`, of volume `volume`, appended to
/// the `i`-th path, whose volume grows by `volume` (saturating).
pub open spec fn merged_at(paths0: Seq<RiverPath>, paths1: Seq<RiverPath>, i: int, cur: Seq<Point>, volume: usize) -> bool {
    &&& 0 <= i < paths0.len()
    &&& paths1.len() == paths0.len()
    &&& forall|j: int| 0 <= j < paths0.len() && j != i ==> #[trigger] paths1[j] == paths0[j]
    &&& paths1[i].points@ == paths0[i].points@ + cur
    &&& paths1[i].volume == paths0[i].volume.saturating_add(volume)
}

/// The walk from `source` was recorded as the new path `p`: it stopped where no
/// side neighbour was open, and met no recorded terminus on the way.
pub open spec fn recorded(
    g: Seq<Vec<i64>>,
    vis0: Seq<Vec<bool>>,
    vis1: Seq<Vec<bool>>,
    paths0: Seq<RiverPath>,
    source: Point,
    volume: usize,
    p: RiverPath,
) -> bool {
    &&& p.volume == volume
    &&& p.points@.len() > 1
    &&& p.points@[0] == source
    &&& walk_ok(g, vis0, vis1, p.points@)
    &&& stuck(g, vis1, p.points@.last())
    &&& forall|j: int| 1 <= j < p.points@.len() ==> !ends_any(paths0, #[trigger] p.points@[j])
}

/// The walk `w` from `source` reached the terminus of the `i`-th recorded path
/// (the first that ends there), and everything before that cell was appended
/// to that path.
pub open spec fn merged(
    g: Seq<Vec<i64>>,
    vis0: Seq<Vec<bool>>,
    vis1: Seq<Vec<bool>>,
    paths0: Seq<RiverPath>,
    paths1: Seq<RiverPath>,
    source: Point,
    volume: usize,
    i: int,
    w: Seq<Point>,
) -> bool {
    &&& w.len() >= 2
    &&& w[0] == source
    &&& walk_ok(g, vis0, vis1, w)
    &&& merged_at(paths0, paths1, i, w.drop_last(), volume)
    &&& ends_at(paths0[i], w.last())
    &&& forall|j: int| 0 <= j < i ==> !#[trigger] ends_at(paths0[j], w.last())
    &&& forall|j: int| 1 <= j < w.len() - 1 ==> !ends_any(paths0, #[trigger] w[j])
}

/// What one flow walk from `source` does: nothing when no side neighbour of
/// the source is open; else it records a new path or merges into one.
pub open spec fn walk_outcome(
    g: Seq<Vec<i64>>,
    vis0: Seq<Vec<bool>>,
    paths0: Seq<RiverPath>,
    source: Point,
    volume: usize,
    vis1: Seq<Vec<bool>>,
    paths1: Seq<RiverPath>,
) -> bool {
    ||| paths1 == paths0 && vis1 == vis0 && stuck(g, vis0, source)
    ||| exists|p: RiverPath| paths1 == paths0.push(p) && #[trigger] recorded(g, vis0, vis1, paths0, source, volume, p)
    ||| exists|i: int, w: Seq<Point>| #[trigger] merged(g, vis0, vis1, paths0, paths1, source, volume, i, w)
}

/// A walk never takes more steps than the grid has cells.
pub proof fn lemma_walk_bounded(g: Seq<Vec<i64>>, vis0: Seq<Vec<bool>>, vis: Seq<Vec<bool>>, w: Seq<Point>)
    requires
        rectangular(g),
        walk_ok(g, vis0, vis, w),
    ensures
        w.len() - 1 <= width_of(g) * g.len(),
{
    let f = flags(vis);
    assert forall|y: int| 0 <= y < f.len() implies (#[trigger] f[y]).len() == width_of(g) by {}
    lemma_grid_count_bound(f, width_of(g));
    assert(g.len() * width_of(g) == width_of(g) * g.len()) by (nonlinear_arith);
}

/// Two walks of one run, the second starting from a visited grid that holds
/// everything the first claimed, never step into the same cell.
pub proof fn lemma_accepted_once(
    g: Seq<Vec<i64>>,
    a0: Seq<Vec<bool>>,
    a1: Seq<Vec<bool>>,
    b0: Seq<Vec<bool>>,
    b1: Seq<Vec<bool>>,
    w1: Seq<Point>,
    w2: Seq<Point>,
)
    requires
        walk_ok(g, a0, a1, w1),
        grows(g, a1, b0),
        walk_ok(g, b0, b1, w2),
    ensures
        forall|i: int, j: int| 1 <= i < w1.len() && 1 <= j < w2.len() ==> #[trigger] w1[i] != #[trigger] w2[j],
{
    assert forall|i: int, j: int| 1 <= i < w1.len() && 1 <= j < w2.len() implies #[trigger] w1[i] != #[trigger] w2[j] by {
        assert(fresh_step(g, a0, a1, w1[i]));
        assert(fresh_step(g, b0, b1, w2[j]));
    }
}

/// A walk that claims every cell it steps on leaves the visited grid grown.
pub proof fn lemma_walk_grows(g: Seq<Vec<i64>>, vis0: Seq<Vec<bool>>, vis: Seq<Vec<bool>>, w: Seq<Point>)
    requires
        walk_ok(g, vis0, vis, w),
    ensures
        grows(g, vis0, vis),
{
}

/// Runs the flow walk from `source`, claiming cells in `visited`. A walk that
/// reaches the terminus of a recorded path is appended to it and adds its
/// volume; otherwise a walk of at least one step is recorded as a new path.
pub fn trace_river(
    source: Point,
    initial_volume: usize,
    height_map: &ElevationGrid,
    visited: &mut Vec<Vec<bool>>,
    river_paths: &mut Vec<RiverPath>,
    rng: &mut StdRng,
)
    requires
        rectangular(height_map@),
        has_shape(old(visited)@, width_of(height_map@), height_map@.len() as int),
        in_bounds(width_of(height_map@), height_map@.len() as int, source.0 as int, source.1 as int),
    ensures
        has_shape(final(visited)@, width_of(height_map@), height_map@.len() as int),
        walk_outcome(height_map@, old(visited)@, old(river_paths)@, source, initial_volume, final(visited)@, final(river_paths)@),
{
    let ghost g = height_map@;
    let ghost w = width_of(g);
    let ghost h = g.len() as int;
    let ghost vis0 = visited@;
    let ghost paths0 = river_paths@;
    let mut current_path = RiverPath { points: vec![source], volume: initial_volume };
    let mut current_point = source;
    proof {
        let f = flags(visited@);
        assert forall|y: int| 0 <= y < f.len() implies (#[trigger] f[y]).len() == w by {}
        lemma_grid_count_bound(f, w);
    }
    loop
        invariant
            g == height_map@,
            w == width_of(g),
            h == g.len(),
            rectangular(g),
            river_paths@ == paths0,
            paths0 == old(river_paths)@,
            vis0 == old(visited)@,
            current_path.volume == initial_volume,
            current_path.points@[0] == source,
            current_path.points@.last() == current_point,
            walk_ok(g, vis0, visited@, current_path.points@),
            forall|j: int| 1 <= j < current_path.points@.len() ==> !ends_any(paths0, #[trigger] current_path.points@[j]),
            current_path.points@.len() == 1 ==> visited@ == vis0,
            grid_count(flags(visited@)) <= h * w,
        ensures
            river_paths@ == paths0,
            current_path.volume == initial_volume,
            current_path.points@[0] == source,
            walk_ok(g, vis0, visited@, current_path.points@),
            forall|j: int| 1 <= j < current_path.points@.len() ==> !ends_any(paths0, #[trigger] current_path.points@[j]),
            current_path.points@.len() == 1 ==> visited@ == vis0,
            stuck(g, visited@, current_path.points@.last()),
        decreases h * w - grid_count(flags(visited@)),
    {
        let order = shuffled_directions(rng);
        let ghost before = visited@;
        let ghost pts = current_path.points@;
        assert(in_bounds(w, h, current_point.0 as int, current_point.1 as int)) by {
            if pts.len() > 1 {
                assert(fresh_step(g, vis0, before, pts[pts.len() - 1]));
            }
        }
        let next = match find_next_flow_point(&current_point, height_map, visited, &order) {
            None => {
                break;
            },
            Some(p) => p,
        };
        let ghost wk = pts.push(next);
        proof {
            // the visited grid grew by exactly `next`, which was open
            let fb = flags(before);
            let row = fb[next.1 as int].update(next.0 as int, true);
            assert(flags(visited@) =~= fb.update(next.1 as int, row));
            lemma_row_count_set(fb[next.1 as int], next.0 as int);
            lemma_grid_count_update(fb, next.1 as int, row);
            let f = flags(visited@);
            assert forall|y: int| 0 <= y < f.len() implies (#[trigger] f[y]).len() == w by {}
            lemma_grid_count_bound(f, w);
            assert forall|x: int, y: int| in_bounds(w, h, x, y) implies
                (#[trigger] visited@[y]@[x]) == (vis0[y]@[x] || exists|j: int| 1 <= j < wk.len() && at(wk[j]) == (x, y)) by {
                if y == next.1 {
                    assert(visited@[y]@ == before[y]@.update(next.0 as int, true));
                } else {
                    assert(visited@[y]@ == before[y]@);
                }
                if exists|j: int| 1 <= j < pts.len() && at(pts[j]) == (x, y) {
                    let j = choose|j: int| 1 <= j < pts.len() && at(pts[j]) == (x, y);
                    assert(wk[j] == pts[j]);
                }
                if exists|j: int| 1 <= j < wk.len() && at(wk[j]) == (x, y) {
                    let j = choose|j: int| 1 <= j < wk.len() && at(wk[j]) == (x, y);
                    if j < pts.len() {
                        assert(wk[j] == pts[j]);
                    }
                }
                if x == next.0 && y == next.1 {
                    assert(at(wk[pts.len() as int]) == (x, y));
                }
            }
            assert forall|i: int| 1 <= i < wk.len() implies fresh_step(g, vis0, visited@, #[trigger] wk[i]) by {
                if i < pts.len() {
                    assert(wk[i] == pts[i]);
                    assert(fresh_step(g, vis0, before, pts[i]));
                    let q = pts[i];
                    if q.1 == next.1 {
                        assert(visited@[q.1 as int]@ == before[q.1 as int]@.update(next.0 as int, true));
                    }
                } else {
                    assert(wk[i] == next);
                    assert(is_open(g, before, at(next)));
                    if vis0[next.1 as int]@[next.0 as int] {
                        assert(before[next.1 as int]@[next.0 as int]);
                    }
                }
            }
            // the open cells before this step are those left open by the walk so far
            assert forall|c: (int, int)| #[trigger] open_in(g, before)(c) == open_after(g, vis0, pts)(c) by {
                if in_bounds(w, h, c.0, c.1) {
                    assert(before[c.1]@[c.0] == (vis0[c.1]@[c.0] || exists|j: int| 1 <= j < pts.len() && at(pts[j]) == (c.0, c.1)));
                }
            }
            assert(open_in(g, before) =~= open_after(g, vis0, pts));
            assert(wk.subrange(0, pts.len() as int) =~= pts);
            let k = choose|k: int| #[trigger] is_flow_choice(g, open_in(g, before), current_point, order@, k)
                && (next.0 as int, next.1 as int) == neighbor(current_point, order@[k] as int);
            assert(is_flow_choice(g, open_after(g, vis0, wk.subrange(0, pts.len() as int)), wk[pts.len() - 1], order@, k));
            assert(step_ok(g, vis0, wk, pts.len() - 1));
            assert forall|i: int| 0 <= i < wk.len() - 1 implies #[trigger] step_ok(g, vis0, wk, i) by {
                if i < pts.len() - 1 {
                    assert(step_ok(g, vis0, pts, i));
                    assert(wk.subrange(0, i + 1) =~= pts.subrange(0, i + 1));
                    assert(wk[i] == pts[i] && wk[i + 1] == pts[i + 1]);
                }
            }
            assert(walk_ok(g, vis0, visited@, wk));
        }
        match find_connecting_path(&next, river_paths) {
            Some(i) => {
                let ghost cur = current_path.points@;
                let mut existing = river_paths.remove(i);
                existing.points.append(&mut current_path.points);
                existing.volume = existing.volume.saturating_add(current_path.volume);
                river_paths.insert(i, existing);
                proof {
                    assert(river_paths@ =~= paths0.update(i as int, existing));
                    assert(wk.drop_last() =~= cur);
                    assert(merged_at(paths0, river_paths@, i as int, wk.drop_last(), initial_volume));
                    assert forall|j: int| 0 <= j < i implies !#[trigger] ends_at(paths0[j], wk.last()) by {}
                    assert forall|j: int| 1 <= j < wk.len() - 1 implies !ends_any(paths0, #[trigger] wk[j]) by {
                        assert(wk[j] == cur[j]);
                    }
                    assert(merged(g, vis0, visited@, paths0, river_paths@, source, initial_volume, i as int, wk));
                }
                return;
            },
            None => {
                current_path.points.push(next);
                current_point = next;
                proof {
                    assert(current_path.points@ == wk);
                    assert forall|j: int| 1 <= j < wk.len() implies !ends_any(paths0, #[trigger] wk[j]) by {
                        if j < pts.len() {
                            assert(wk[j] == pts[j]);
                        } else {
                            assert(wk[j] == next);
                            if ends_any(paths0, next) {
                                let m = choose|m: int| 0 <= m < paths0.len() && #[trigger] ends_at(paths0[m], next);
                                assert(river_paths@[m].points@.len() > 0 && river_paths@[m].points@.last() == next);
                            }
                        }
                    }
                }
            },
        }
    }
    if current_path.points.len() > 1 {
        let ghost p = current_path;
        river_paths.push(current_path);
        assert(recorded(g, vis0, visited@, paths0, source, initial_volume, p));
    }
}

/// Every path has taken at least one step and runs through cells of the grid.
pub open spec fn paths_ok(g: Seq<Vec<i64>>, paths: Seq<RiverPath>) -> bool {
    forall|i: int| 0 <= i < paths.len() ==> {
        &&& (#[trigger] paths[i]).points@.len() > 1
        &&& forall|k: int| 0 <= k < paths[i].points@.len() ==> in_bounds(
            width_of(g),
            g.len() as int,
            (#[trigger] paths[i].points@[k]).0 as int,
            paths[i].points@[k].1 as int,
        )
    }
}

/// A grid of the shape of `g` with no cell claimed.
pub open spec fn all_clear(g: Seq<Vec<i64>>, vis: Seq<Vec<bool>>) -> bool {
    &&& has_shape(vis, width_of(g), g.len() as int)
    &&& forall|x: int, y: int| in_bounds(width_of(g), g.len() as int, x, y) ==> !(#[trigger] vis[y]@[x])
}

/// Number of points over all paths.
pub open spec fn total_points(paths: Seq<RiverPath>) -> int
    decreases paths.len(),
{
    if paths.len() == 0 {
        0
    } else {
        total_points(paths.drop_last()) + paths.last().points@.len()
    }
}

/// Sum of the volumes of all paths.
pub open spec fn total_volume(paths: Seq<RiverPath>) -> int
    decreases paths.len(),
{
    if paths.len() == 0 {
        0
    } else {
        total_volume(paths.drop_last()) + paths.last().volume
    }
}

/// Replacing one path changes the totals by the change of that path.
pub proof fn lemma_totals_update(paths: Seq<RiverPath>, i: int, p: RiverPath)
    requires
        0 <= i < paths.len(),
    ensures
        total_points(paths.update(i, p)) == total_points(paths) - paths[i].points@.len() + p.points@.len(),
        total_volume(paths.update(i, p)) == total_volume(paths) - paths[i].volume + p.volume,
    decreases paths.len(),
{
    let u = paths.update(i, p);
    if i == paths.len() - 1 {
        assert(u.drop_last() =~= paths.drop_last());
    } else {
        assert(u.drop_last() =~= paths.drop_last().update(i, p));
        lemma_totals_update(paths.drop_last(), i, p);
    }
}

/// No single path holds more volume than all paths together.
pub proof fn lemma_volume_within_total(paths: Seq<RiverPath>, i: int)
    requires
        0 <= i < paths.len(),
    ensures
        paths[i].volume <= total_volume(paths),
        total_volume(paths) >= 0,
    decreases paths.len(),
{
    if paths.len() > 1 {
        if i < paths.len() - 1 {
            lemma_volume_within_total(paths.drop_last(), i);
            assert(paths.drop_last()[i] == paths[i]);
        } else {
            lemma_volume_within_total(paths.drop_last(), 0);
        }
    } else {
        assert(paths.drop_last().len() == 0);
        assert(total_volume(paths.drop_last()) == 0);
    }
}

/// `viss` and `pathss` are the visited grids and recorded paths before and
/// after each of the first `n` walks of a run from `starts`, beginning with a
/// clear grid and no paths.
pub open spec fn is_run(
    g: Seq<Vec<i64>>,
    starts: Seq<Point>,
    n: int,
    volume: usize,
    viss: Seq<Seq<Vec<bool>>>,
    pathss: Seq<Seq<RiverPath>>,
) -> bool {
    &&& 0 <= n <= starts.len()
    &&& viss.len() == n + 1
    &&& pathss.len() == n + 1
    &&& all_clear(g, viss[0])
    &&& pathss[0] == Seq::<RiverPath>::empty()
    &&& forall|k: int| 0 <= k < n ==> #[trigger] walk_outcome(g, viss[k], pathss[k], starts[k], volume, viss[k + 1], pathss[k + 1])
}

/// `v` is the volume of `m >= 1` walks of volume `volume` each, or the largest
/// volume where that sum does not fit.
pub open spec fn volume_of_walks(v: usize, volume: usize, m: int) -> bool {
    m >= 1 && (v == volume * m || v == usize::MAX)
}

/// `v` is the volume of some number of walks of volume `volume` each.
pub open spec fn walk_multiple(v: usize, volume: usize) -> bool {
    exists|m: int| #[trigger] volume_of_walks(v, volume, m)
}

/// `paths` is what a run of walks from `starts`, in order over one fresh
/// visited grid, leaves recorded; in total it holds at most one point per start
/// and per cell, and at most `volume` per start.
pub open spec fn run_result(g: Seq<Vec<i64>>, starts: Seq<Point>, volume: usize, paths: Seq<RiverPath>) -> bool {
    &&& exists|viss: Seq<Seq<Vec<bool>>>, pathss: Seq<Seq<RiverPath>>| #[trigger] is_run(g, starts, starts.len() as int, volume, viss, pathss)
        && pathss.last() == paths
    &&& total_points(paths) <= starts.len() + width_of(g) * g.len()
    &&& total_volume(paths) <= volume * starts.len()
    &&& forall|i: int| 0 <= i < paths.len() ==> walk_multiple((#[trigger] paths[i]).volume, volume)
}

/// Over a run, the visited grid only grows.
pub proof fn lemma_run_grows(
    g: Seq<Vec<i64>>,
    starts: Seq<Point>,
    n: int,
    volume: usize,
    viss: Seq<Seq<Vec<bool>>>,
    pathss: Seq<Seq<RiverPath>>,
    a: int,
    b: int,
)
    requires
        is_run(g, starts, n, volume, viss, pathss),
        0 <= a <= b <= n,
    ensures
        grows(g, viss[a], viss[b]),
    decreases b - a,
{
    if a < b {
        lemma_run_grows(g, starts, n, volume, viss, pathss, a, b - 1);
        let c = b - 1;
        assert(walk_outcome(g, viss[c], pathss[c], starts[c], volume, viss[c + 1], pathss[c + 1]));
        if exists|p: RiverPath| pathss[b] == pathss[b - 1].push(p) && #[trigger] recorded(g, viss[b - 1], viss[b], pathss[b - 1], starts[b - 1], volume, p) {
            let p = choose|p: RiverPath| pathss[b] == pathss[b - 1].push(p) && #[trigger] recorded(g, viss[b - 1], viss[b], pathss[b - 1], starts[b - 1], volume, p);
            lemma_walk_grows(g, viss[b - 1], viss[b], p.points@);
        } else if exists|i: int, w: Seq<Point>| #[trigger] merged(g, viss[b - 1], viss[b], pathss[b - 1], pathss[b], starts[b - 1], volume, i, w) {
            let (i, w) = choose|i: int, w: Seq<Point>| #[trigger] merged(g, viss[b - 1], viss[b], pathss[b - 1], pathss[b], starts[b - 1], volume, i, w);
            lemma_walk_grows(g, viss[b - 1], viss[b], w);
        }
    }
}

/// No cell is taken as a fresh step by two different walks of one run.
pub proof fn lemma_run_accepted_once(
    g: Seq<Vec<i64>>,
    starts: Seq<Point>,
    n: int,
    volume: usize,
    viss: Seq<Seq<Vec<bool>>>,
    pathss: Seq<Seq<RiverPath>>,
    k: int,
    j: int,
    w1: Seq<Point>,
    w2: Seq<Point>,
)
    requires
        is_run(g, starts, n, volume, viss, pathss),
        0 <= k < j < n,
        walk_ok(g, viss[k], viss[k + 1], w1),
        walk_ok(g, viss[j], viss[j + 1], w2),
    ensures
        forall|a: int, b: int| 1 <= a < w1.len() && 1 <= b < w2.len() ==> #[trigger] w1[a] != #[trigger] w2[b],
{
    lemma_run_grows(g, starts, n, volume, viss, pathss, k + 1, j);
    lemma_accepted_once(g, viss[k], viss[k + 1], viss[j], viss[j + 1], w1, w2);
}

/// Runs the flow walk from each of `start_points` in turn over one fresh
/// visited grid, and returns the recorded paths.
pub fn simulate_water_flow(map_params: &MapParams, start_points: Vec<Point>, height_map: &ElevationGrid, rng: &mut StdRng) -> (r: Vec<RiverPath>)
    requires
        rectangular(height_map@),
        map_params.width as int == width_of(height_map@),
        map_params.height as int == height_map@.len(),
        forall|i: int| 0 <= i < start_points@.len() ==> in_bounds(
            width_of(height_map@),
            height_map@.len() as int,
            (#[trigger] start_points@[i]).0 as int,
            start_points@[i].1 as int,
        ),
    ensures
        r@.len() <= start_points@.len(),
        paths_ok(height_map@, r@),
        run_result(height_map@, start_points@, map_params.initial_volume, r@),
        start_points@.len() > 0 && (exists|d: int| 0 <= d < 4 && #[trigger] in_bounds(
            width_of(height_map@),
            height_map@.len() as int,
            neighbor(start_points@[0], d).0,
            neighbor(start_points@[0], d).1,
        )) ==> r@.len() > 0,
{
    let ghost g = height_map@;
    let ghost w = width_of(g);
    let ghost h = g.len() as int;
    let ghost volume = map_params.initial_volume;
    let mut river_paths: Vec<RiverPath> = Vec::new();
    let mut visited = new_flag_grid(map_params.width, map_params.height);
    let ghost clear = visited@;
    let ghost mut viss: Seq<Seq<Vec<bool>>> = seq![visited@];
    let ghost mut pathss: Seq<Seq<RiverPath>> = seq![river_paths@];
    proof {
        let f = flags(visited@);
        assert forall|y: int| 0 <= y < f.len() implies (#[trigger] f[y]).len() == w by {}
        lemma_grid_count_bound(f, w);
        assert(river_paths@ =~= Seq::<RiverPath>::empty());
    }
    let mut i: usize = 0;
    while i < start_points.len()
        invariant
            g == height_map@,
            w == width_of(g),
            h == g.len(),
            volume == map_params.initial_volume,
            rectangular(g),
            i <= start_points@.len(),
            has_shape(visited@, w, h),
            river_paths@.len() <= i,
            paths_ok(g, river_paths@),
            forall|k: int| 0 <= k < start_points@.len() ==> in_bounds(w, h, (#[trigger] start_points@[k]).0 as int, start_points@[k].1 as int),
            is_run(g, start_points@, i as int, volume, viss, pathss),
            viss.last() == visited@,
            pathss.last() == river_paths@,
            viss[0] == clear,
            all_clear(g, clear),
            total_points(river_paths@) <= i + grid_count(flags(visited@)),
            grid_count(flags(visited@)) <= h * w,
            total_volume(river_paths@) <= volume * i,
            forall|j: int| 0 <= j < river_paths@.len() ==> walk_multiple((#[trigger] river_paths@[j]).volume, volume),
            i >= 1 && !stuck(g, clear, start_points@[0]) ==> river_paths@.len() >= 1,
        decreases start_points@.len() - i,
    {
        let source = start_points[i];
        let ghost paths0 = river_paths@;
        let ghost vis0 = visited@;
        trace_river(source, map_params.initial_volume, height_map, &mut visited, &mut river_paths, rng);
        proof {
            let paths1 = river_paths@;
            let vis1 = visited@;
            let f = flags(vis1);
            assert forall|y: int| 0 <= y < f.len() implies (#[trigger] f[y]).len() == w by {}
            lemma_grid_count_bound(f, w);
            assert(volume * (i + 1) == volume * i + volume) by (nonlinear_arith);
            if paths1 == paths0 && vis1 == vis0 && stuck(g, vis0, source) {
                if i == 0 {
                    assert(vis0 == clear);
                }
            } else if exists|p: RiverPath| paths1 == paths0.push(p) && #[trigger] recorded(g, vis0, vis1, paths0, source, volume, p) {
                let p = choose|p: RiverPath| paths1 == paths0.push(p) && #[trigger] recorded(g, vis0, vis1, paths0, source, volume, p);
                assert(paths1.drop_last() =~= paths0);
                assert forall|j: int| 0 <= j < paths1.len() implies walk_multiple((#[trigger] paths1[j]).volume, volume) by {
                    if j == paths0.len() {
                        assert(volume * 1 == volume);
                        assert(volume_of_walks(paths1[j].volume, volume, 1));
                    } else {
                        assert(paths1[j] == paths0[j]);
                    }
                }
                assert forall|j: int| 0 <= j < paths1.len() implies {
                    &&& (#[trigger] paths1[j]).points@.len() > 1
                    &&& forall|k: int| 0 <= k < paths1[j].points@.len() ==> in_bounds(w, h,
                        (#[trigger] paths1[j].points@[k]).0 as int, paths1[j].points@[k].1 as int)
                } by {
                    if j == paths0.len() {
                        assert forall|k: int| 0 <= k < p.points@.len() implies in_bounds(w, h,
                            (#[trigger] p.points@[k]).0 as int, p.points@[k].1 as int) by {
                            if k >= 1 {
                                assert(fresh_step(g, vis0, vis1, p.points@[k]));
                            }
                        }
                    } else {
                        assert(paths1[j] == paths0[j]);
                    }
                }
            } else {
                let (m, wk) = choose|m: int, wk: Seq<Point>| #[trigger] merged(g, vis0, vis1, paths0, paths1, source, volume, m, wk);
                lemma_totals_update(paths0, m, paths1[m]);
                assert(paths1 =~= paths0.update(m, paths1[m]));
                let old_pts = paths0[m].points@;
                assert forall|j: int| 0 <= j < paths1.len() implies walk_multiple((#[trigger] paths1[j]).volume, volume) by {
                    if j == m {
                        let v0 = paths0[m].volume;
                        assert(walk_multiple(paths0[m].volume, volume));
                        let c = choose|c: int| #[trigger] volume_of_walks(paths0[m].volume, volume, c);
                        assert(volume * c + volume == volume * (c + 1)) by (nonlinear_arith);
                        assert(volume_of_walks(paths1[j].volume, volume, c + 1));
                    } else {
                        assert(paths1[j] == paths0[j]);
                    }
                }
                assert forall|j: int| 0 <= j < paths1.len() implies {
                    &&& (#[trigger] paths1[j]).points@.len() > 1
                    &&& forall|k: int| 0 <= k < paths1[j].points@.len() ==> in_bounds(w, h,
                        (#[trigger] paths1[j].points@[k]).0 as int, paths1[j].points@[k].1 as int)
                } by {
                    if j == m {
                        assert forall|k: int| 0 <= k < paths1[j].points@.len() implies in_bounds(w, h,
                            (#[trigger] paths1[j].points@[k]).0 as int, paths1[j].points@[k].1 as int) by {
                            if k < old_pts.len() {
                                assert(paths1[j].points@[k] == old_pts[k]);
                            } else {
                                assert(paths1[j].points@[k] == wk[k - old_pts.len()]);
                                if k > old_pts.len() {
                                    assert(fresh_step(g, vis0, vis1, wk[k - old_pts.len()]));
                                }
                            }
                        }
                    } else {
                        assert(paths1[j] == paths0[j]);
                    }
                }
            }
            let viss1 = viss.push(vis1);
            let pathss1 = pathss.push(paths1);
            assert forall|k: int| 0 <= k < i + 1 implies #[trigger] walk_outcome(g, viss1[k], pathss1[k], start_points@[k], volume, viss1[k + 1], pathss1[k + 1]) by {
                if k < i {
                    assert(viss1[k] == viss[k] && viss1[k + 1] == viss[k + 1]);
                    assert(pathss1[k] == pathss[k] && pathss1[k + 1] == pathss[k + 1]);
                    assert(walk_outcome(g, viss[k], pathss[k], start_points@[k], volume, viss[k + 1], pathss[k + 1]));
                }
            }
            viss = viss1;
            pathss = pathss1;
        }
        i = i + 1;
    }
    proof {
        assert(is_run(g, start_points@, start_points@.len() as int, volume, viss, pathss));
        assert(h * w == w * h) by (nonlinear_arith);
        if start_points@.len() > 0 && (exists|d: int| 0 <= d < 4 && #[trigger] in_bounds(w, h,
            neighbor(start_points@[0], d).0, neighbor(start_points@[0], d).1)) {
            let d = choose|d: int| 0 <= d < 4 && #[trigger] in_bounds(w, h,
                neighbor(start_points@[0], d).0, neighbor(start_points@[0], d).1);
            assert(is_open(g, clear, neighbor(start_points@[0], d)));
        }
    }
    river_paths
}

} // verus!
