//! The whole water mask: basins, then rivers, then lakes.
use vstd::prelude::*;
use rand::rngs::StdRng;
use crate::basins::{find_basins, is_basin};
use crate::flow::{lemma_volume_within_total, paths_ok, run_result, simulate_water_flow, total_volume, RiverPath};
use crate::grid::{has_shape, in_bounds, new_flag_grid, rectangular, set_flag, width_of, ElevationGrid, Point, WaterMap};
use crate::lake::{form_lake, in_lake, lake_radius};
use crate::sources::{determine_river_sources, is_source};
use crate::grid::scan_ordered;

verus! {

/// Generation parameters. Elevation thresholds are in the fixed-point units
/// of the elevation grid.
pub struct MapParams {
    pub width: usize,
    pub height: usize,
    pub river_elevation_threshold: i64,
    pub slope_threshold: i64,
    pub lake_formation_threshold: usize,
    pub initial_volume: usize,
}

/// Why a water mask could not be generated.
#[derive(Debug, Clone, Copy, PartialEq, Eq, Structural)]
pub enum ConfigError {
    /// The elevation grid is not `width` by `height`.
    DimensionMismatch,
}

/// `p` is large enough to carve a lake, and `(x, y)` lies in that lake.
pub open spec fn lake_of(p: RiverPath, threshold: usize, x: int, y: int) -> bool {
    &&& p.volume > threshold
    &&& p.points@.len() > 0
    &&& in_lake(p.points@.last().0 as int, p.points@.last().1 as int, lake_radius(p.volume as int), x, y)
}

/// `(x, y)` lies in the lake of one of `paths`.
pub open spec fn lake_cell(paths: Seq<RiverPath>, threshold: usize, x: int, y: int) -> bool {
    exists|i: int| 0 <= i < paths.len() && #[trigger] lake_of(paths[i], threshold, x, y)
}

/// `wm` is the water mask of elevation grid `g` with rivers `paths`: a cell is
/// water exactly when it is a basin or lies in a lake.
pub open spec fn water_layout(g: Seq<Vec<i64>>, paths: Seq<RiverPath>, threshold: usize, wm: Seq<Vec<bool>>) -> bool {
    &&& paths_ok(g, paths)
    &&& forall|x: int, y: int| in_bounds(width_of(g), g.len() as int, x, y) ==> (#[trigger] wm[y]@[x]) == (is_basin(g, x, y) || lake_cell(paths, threshold, x, y))
}

/// `s` lists the river sources of `g`, each once, in row-major scan order.
pub open spec fn source_list(g: Seq<Vec<i64>>, elevation_threshold: i64, slope_threshold: i64, s: Seq<Point>) -> bool {
    &&& forall|i: int| 0 <= i < s.len() ==> is_source(g, (#[trigger] s[i]).0 as int, s[i].1 as int, elevation_threshold as int, slope_threshold as int)
    &&& forall|x: usize, y: usize| is_source(g, x as int, y as int, elevation_threshold as int, slope_threshold as int) ==> s.contains((x, y))
    &&& scan_ordered(s)
}

/// `wm` is the water mask of `g` under `p`: the sources of `g` are walked in
/// order, and the mask is the basins plus the lakes of the paths that run left.
pub open spec fn water_run(g: Seq<Vec<i64>>, p: MapParams, sources: Seq<Point>, paths: Seq<RiverPath>, wm: Seq<Vec<bool>>) -> bool {
    &&& source_list(g, p.river_elevation_threshold, p.slope_threshold, sources)
    &&& run_result(g, sources, p.initial_volume, paths)
    &&& water_layout(g, paths, p.lake_formation_threshold, wm)
}

/// `wm` is a water mask that a run on `g` under `p` can produce.
pub open spec fn is_water_mask(g: Seq<Vec<i64>>, p: MapParams, wm: Seq<Vec<bool>>) -> bool {
    exists|sources: Seq<Point>, paths: Seq<RiverPath>| #[trigger] water_run(g, p, sources, paths, wm)
}

/// Whether `g` has `h` rows of `w` cells.
pub fn check_shape(g: &ElevationGrid, w: usize, h: usize) -> (r: bool)
    ensures
        r == has_shape(g@, w as int, h as int),
{
    if g.len() != h {
        return false;
    }
    let mut y: usize = 0;
    while y < h
        invariant
            g@.len() == h,
            y <= h,
            forall|yy: int| 0 <= yy < y ==> (#[trigger] g@[yy]@.len()) == w,
        decreases h - y,
    {
        if g[y].len() != w {
            return false;
        }
        y = y + 1;
    }
    true
}

/// Marks every point of `basins` as water.
pub fn seed_basins(water_map: &mut WaterMap, basins: &Vec<Point>)
    requires
        rectangular(old(water_map)@),
        forall|i: int| 0 <= i < basins@.len() ==> in_bounds(
            width_of(old(water_map)@),
            old(water_map)@.len() as int,
            (#[trigger] basins@[i]).0 as int,
            basins@[i].1 as int,
        ),
    ensures
        has_shape(final(water_map)@, width_of(old(water_map)@), old(water_map)@.len() as int),
        forall|x: int, y: int| in_bounds(width_of(old(water_map)@), old(water_map)@.len() as int, x, y) ==>
            (#[trigger] final(water_map)@[y]@[x]) == (old(water_map)@[y]@[x] || basins@.contains((x as usize, y as usize))),
{
    let ghost orig = water_map@;
    let ghost w = width_of(orig);
    let ghost h = orig.len() as int;
    let rows = water_map.len();
    let cols = if rows > 0 { water_map[0].len() } else { 0 };
    assert(w == cols as int);
    let mut i: usize = 0;
    while i < basins.len()
        invariant
            w == width_of(orig),
            h == orig.len(),
            w == cols as int,
            h == rows as int,
            i <= basins@.len(),
            has_shape(water_map@, w, h),
            forall|k: int| 0 <= k < basins@.len() ==> in_bounds(w, h, (#[trigger] basins@[k]).0 as int, basins@[k].1 as int),
            forall|x: int, y: int| in_bounds(w, h, x, y) ==>
                (#[trigger] water_map@[y]@[x]) == (orig[y]@[x] || basins@.subrange(0, i as int).contains((x as usize, y as usize))),
        decreases basins@.len() - i,
    {
        let (bx, by) = basins[i];
        let ghost before = water_map@;
        set_flag(water_map, bx, by, true);
        assert forall|x: int, y: int| in_bounds(w, h, x, y) implies
            (#[trigger] water_map@[y]@[x]) == (orig[y]@[x] || basins@.subrange(0, i + 1).contains((x as usize, y as usize))) by {
            let s0 = basins@.subrange(0, i as int);
            let s1 = basins@.subrange(0, i + 1);
            assert(s1 =~= s0.push(basins@[i as int]));
            if y == by {
                assert(water_map@[y]@ == before[y]@.update(bx as int, true));
            } else {
                assert(water_map@[y]@ == before[y]@);
            }
            if s0.contains((x as usize, y as usize)) {
                let k = choose|k: int| 0 <= k < s0.len() && s0[k] == (x as usize, y as usize);
                assert(s1[k] == s0[k]);
            }
            if s1.contains((x as usize, y as usize)) && !s0.contains((x as usize, y as usize)) {
                let k = choose|k: int| 0 <= k < s1.len() && s1[k] == (x as usize, y as usize);
                if k < i {
                    assert(s0[k] == s1[k]);
                }
            }
            if x == bx && y == by {
                assert(s1[i as int] == (bx, by));
            }
        }
        i = i + 1;
    }
    assert(basins@.subrange(0, basins@.len() as int) =~= basins@);
}

/// Carves the lake of every path whose volume exceeds `threshold`.
pub fn carve_lakes(water_map: &mut WaterMap, river_paths: &Vec<RiverPath>, threshold: usize)
    requires
        rectangular(old(water_map)@),
    ensures
        has_shape(final(water_map)@, width_of(old(water_map)@), old(water_map)@.len() as int),
        forall|x: int, y: int| in_bounds(width_of(old(water_map)@), old(water_map)@.len() as int, x, y) ==>
            (#[trigger] final(water_map)@[y]@[x]) == (old(water_map)@[y]@[x] || lake_cell(river_paths@, threshold, x, y)),
{
    let ghost orig = water_map@;
    let ghost w = width_of(orig);
    let ghost h = orig.len() as int;
    let mut i: usize = 0;
    while i < river_paths.len()
        invariant
            w == width_of(orig),
            h == orig.len(),
            i <= river_paths@.len(),
            has_shape(water_map@, w, h),
            forall|x: int, y: int| in_bounds(w, h, x, y) ==>
                (#[trigger] water_map@[y]@[x]) == (orig[y]@[x] || lake_cell(river_paths@.subrange(0, i as int), threshold, x, y)),
        decreases river_paths@.len() - i,
    {
        let ghost before = water_map@;
        let path = &river_paths[i];
        let n = path.points.len();
        if path.volume > threshold && n > 0 {
            let lake_center = path.points[n - 1];
            assert(width_of(water_map@) == w) by {
                if h > 0 {
                    assert(water_map@[0]@.len() == w);
                }
            }
            form_lake(water_map, &lake_center, path.volume);
        }
        assert forall|x: int, y: int| in_bounds(w, h, x, y) implies
            (#[trigger] water_map@[y]@[x]) == (orig[y]@[x] || lake_cell(river_paths@.subrange(0, i + 1), threshold, x, y)) by {
            let s0 = river_paths@.subrange(0, i as int);
            let s1 = river_paths@.subrange(0, i + 1);
            assert(s1 =~= s0.push(river_paths@[i as int]));
            if lake_cell(s0, threshold, x, y) {
                let k = choose|k: int| 0 <= k < s0.len() && #[trigger] lake_of(s0[k], threshold, x, y);
                assert(s1[k] == s0[k]);
            }
            if lake_cell(s1, threshold, x, y) && !lake_cell(s0, threshold, x, y) {
                let k = choose|k: int| 0 <= k < s1.len() && #[trigger] lake_of(s1[k], threshold, x, y);
                if k < i {
                    assert(s0[k] == s1[k]);
                }
            }
            if lake_of(river_paths@[i as int], threshold, x, y) {
                assert(s1[i as int] == river_paths@[i as int]);
            }
        }
        i = i + 1;
    }
    assert(river_paths@.subrange(0, river_paths@.len() as int) =~= river_paths@);
}

/// The water mask of `height_map`: basins, then rivers walked with `rng`
/// breaking ties, then lakes. Fails, before any scan, when the grid is not
/// `width` by `height`.
pub fn generate_water_map(map_params: &MapParams, height_map: &ElevationGrid, rng: &mut StdRng) -> (r: Result<WaterMap, ConfigError>)
    ensures
        r is Err <==> !has_shape(height_map@, map_params.width as int, map_params.height as int),
        r matches Err(e) ==> e == ConfigError::DimensionMismatch,
        r matches Ok(wm) ==> has_shape(wm@, map_params.width as int, map_params.height as int),
        r matches Ok(wm) ==> is_water_mask(height_map@, *map_params, wm@),
{
    let width = map_params.width;
    let height = map_params.height;
    if !check_shape(height_map, width, height) {
        return Err(ConfigError::DimensionMismatch);
    }
    let ghost g = height_map@;
    if height == 0 {
        let empty: WaterMap = Vec::new();
        let ghost none = Seq::<RiverPath>::empty();
        let ghost nsrc = Seq::<Point>::empty();
        let ghost viss = seq![Seq::<Vec<bool>>::empty()];
        let ghost pathss = seq![none];
        assert(crate::flow::is_run(g, nsrc, 0, map_params.initial_volume, viss, pathss));
        assert(crate::flow::total_points(none) == 0 && total_volume(none) == 0);
        assert(water_run(g, *map_params, nsrc, none, empty@));
        return Ok(empty);
    }
    assert(width_of(g) == width as int) by {
        if height > 0 {
            assert(g[0]@.len() == width);
        }
    }
    let mut water_map: WaterMap = new_flag_grid(width, height);
    assert(width_of(water_map@) == width as int) by {
        if height > 0 {
            assert(water_map@[0]@.len() == width);
        }
    }
    let basins = find_basins(height_map);
    let ghost wm0 = water_map@;
    seed_basins(&mut water_map, &basins);
    let ghost wm1 = water_map@;
    assert forall|x: int, y: int| in_bounds(width as int, height as int, x, y) implies (#[trigger] wm1[y]@[x]) == is_basin(g, x, y) by {
        if is_basin(g, x, y) {
            assert(basins@.contains((x as usize, y as usize)));
        }
        if basins@.contains((x as usize, y as usize)) {
            let k = choose|k: int| 0 <= k < basins@.len() && basins@[k] == (x as usize, y as usize);
            assert(is_basin(g, basins@[k].0 as int, basins@[k].1 as int));
        }
    }
    let start_points = determine_river_sources(height_map, map_params.river_elevation_threshold, map_params.slope_threshold);
    let ghost sources = start_points@;
    let river_paths = simulate_water_flow(map_params, start_points, height_map, rng);
    assert(width_of(water_map@) == width as int) by {
        if height > 0 {
            assert(water_map@[0]@.len() == width);
        }
    }
    carve_lakes(&mut water_map, &river_paths, map_params.lake_formation_threshold);
    assert forall|x: int, y: int| in_bounds(width_of(g), g.len() as int, x, y) implies (#[trigger] water_map@[y]@[x])
        == (is_basin(g, x, y) || lake_cell(river_paths@, map_params.lake_formation_threshold, x, y)) by {
        assert(wm1[y]@[x] == is_basin(g, x, y));
    }
    assert(water_run(g, *map_params, sources, river_paths@, water_map@));
    Ok(water_map)
}

/// Every basin of the grid is water in a generated mask.
pub proof fn lemma_basins_are_water(g: Seq<Vec<i64>>, p: MapParams, wm: Seq<Vec<bool>>, x: int, y: int)
    requires
        is_water_mask(g, p, wm),
        is_basin(g, x, y),
    ensures
        wm[y]@[x],
{
    assert(in_bounds(width_of(g), g.len() as int, x, y));
}

/// When the lake threshold is at least the volume of all sources together, no
/// lake forms: the mask is exactly the basins.
pub proof fn lemma_no_lake_below_threshold(g: Seq<Vec<i64>>, p: MapParams, wm: Seq<Vec<bool>>, x: int, y: int)
    requires
        is_water_mask(g, p, wm),
        forall|s: Seq<Point>| #[trigger] source_list(g, p.river_elevation_threshold, p.slope_threshold, s)
            ==> p.lake_formation_threshold >= p.initial_volume * s.len(),
        in_bounds(width_of(g), g.len() as int, x, y),
    ensures
        wm[y]@[x] == is_basin(g, x, y),
{
    let (sources, paths) = choose|sources: Seq<Point>, paths: Seq<RiverPath>| #[trigger] water_run(g, p, sources, paths, wm);
    assert(source_list(g, p.river_elevation_threshold, p.slope_threshold, sources));
    if lake_cell(paths, p.lake_formation_threshold, x, y) {
        let i = choose|i: int| 0 <= i < paths.len() && #[trigger] lake_of(paths[i], p.lake_formation_threshold, x, y);
        lemma_volume_within_total(paths, i);
    }
}

} // verus!
