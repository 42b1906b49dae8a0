use rand::rngs::StdRng;
use rand::SeedableRng;
use terrain_water::basins::{find_basins, is_low_point};
use terrain_water::flow::{
    _is_basin, find_connecting_path, find_next_flow_point, simulate_water_flow, trace_river, RiverPath,
};
use terrain_water::grid::{new_flag_grid, ElevationGrid};
use terrain_water::lake::{form_lake, rounded_sqrt};
use terrain_water::sources::determine_river_sources;
use terrain_water::water_map::{
    carve_lakes, check_shape, generate_water_map, seed_basins, ConfigError, MapParams,
};

fn filled(w: usize, h: usize, v: i64) -> ElevationGrid {
    vec![vec![v; w]; h]
}

fn params(w: usize, h: usize) -> MapParams {
    MapParams {
        width: w,
        height: h,
        river_elevation_threshold: 500,
        slope_threshold: 100,
        lake_formation_threshold: 1,
        initial_volume: 10,
    }
}

fn count_water(wm: &Vec<Vec<bool>>) -> usize {
    wm.iter().map(|r| r.iter().filter(|c| **c).count()).sum()
}

#[test]
fn flat_grid_has_no_basins_or_sources() {
    let g = filled(5, 5, 500);
    assert!(find_basins(&g).is_empty());
    assert!(determine_river_sources(&g, 0, 0).is_empty());
}

#[test]
fn single_pit_is_the_only_basin() {
    let mut g = filled(5, 5, 1000);
    g[2][2] = 0;
    assert_eq!(find_basins(&g), vec![(2, 2)]);
    assert!(is_low_point(2, 2, 0, &g));
    assert!(!is_low_point(1, 1, 1000, &g));
}

#[test]
fn basin_needs_all_eight_neighbours_higher() {
    let mut g = filled(5, 5, 1000);
    g[2][2] = 0;
    g[1][1] = 0;
    assert!(find_basins(&g).is_empty());
}

#[test]
fn border_cells_are_never_basins() {
    let mut g = filled(5, 5, 1000);
    g[0][2] = 0;
    g[2][4] = 0;
    assert!(find_basins(&g).is_empty());
}

#[test]
fn basins_come_in_scan_order() {
    let mut g = filled(7, 7, 1000);
    g[4][1] = 0;
    g[1][4] = 0;
    g[4][4] = 0;
    assert_eq!(find_basins(&g), vec![(4, 1), (1, 4), (4, 4)]);
}

#[test]
fn tiny_grids_have_no_basins() {
    assert!(find_basins(&Vec::new()).is_empty());
    assert!(find_basins(&filled(2, 9, 0)).is_empty());
}

#[test]
fn peak_is_a_source() {
    let mut g = filled(5, 5, 0);
    g[2][2] = 1000;
    assert_eq!(determine_river_sources(&g, 500, 100), vec![(2, 2)]);
    assert!(determine_river_sources(&g, 1000, 100).is_empty());
    assert!(determine_river_sources(&g, 500, 1000).is_empty());
}

#[test]
fn source_needs_a_steep_side_neighbour() {
    let mut g = filled(5, 5, 900);
    g[2][2] = 1000;
    g[2][1] = 850;
    assert_eq!(determine_river_sources(&g, 500, 140), vec![(2, 2)]);
    assert!(determine_river_sources(&g, 500, 150).is_empty());
}

#[test]
fn negative_slope_threshold_admits_flat_cells() {
    let g = filled(4, 4, 700);
    assert_eq!(determine_river_sources(&g, 500, -1), vec![(1, 1), (2, 1), (1, 2), (2, 2)]);
}

#[test]
fn steepest_open_neighbour_is_chosen() {
    let g: ElevationGrid = vec![vec![9, 9, 9], vec![5, 8, 3], vec![9, 4, 9]];
    let mut visited = new_flag_grid(3, 3);
    let r = find_next_flow_point(&(1, 1), &g, &mut visited, &[0, 1, 2, 3]);
    assert_eq!(r, Some((2, 1)));
    assert!(visited[1][2]);
    assert_eq!(count_water(&visited), 1);
}

#[test]
fn equal_lowest_neighbours_go_by_order() {
    let g: ElevationGrid = vec![vec![9, 9, 9], vec![3, 8, 3], vec![9, 9, 9]];
    let mut visited = new_flag_grid(3, 3);
    assert_eq!(find_next_flow_point(&(1, 1), &g, &mut visited, &[1, 0, 2, 3]), Some((2, 1)));
    let mut visited = new_flag_grid(3, 3);
    assert_eq!(find_next_flow_point(&(1, 1), &g, &mut visited, &[0, 1, 2, 3]), Some((0, 1)));
}

#[test]
fn flat_ground_takes_first_open_neighbour_and_claims_it() {
    let g = filled(3, 3, 5);
    let mut visited = new_flag_grid(3, 3);
    visited[0][1] = true;
    let r = find_next_flow_point(&(1, 1), &g, &mut visited, &[2, 3, 0, 1]);
    assert_eq!(r, Some((1, 2)));
    assert!(visited[2][1]);
}

#[test]
fn visited_neighbours_are_skipped() {
    let g: ElevationGrid = vec![vec![9, 0, 9], vec![5, 8, 6], vec![9, 9, 9]];
    let mut visited = new_flag_grid(3, 3);
    visited[0][1] = true;
    assert_eq!(find_next_flow_point(&(1, 1), &g, &mut visited, &[2, 3, 0, 1]), Some((0, 1)));
}

#[test]
fn no_open_neighbour_ends_the_flow() {
    let g = filled(1, 1, 5);
    let mut visited = new_flag_grid(1, 1);
    assert_eq!(find_next_flow_point(&(0, 0), &g, &mut visited, &[0, 1, 2, 3]), None);
    assert!(!visited[0][0]);
}

#[test]
fn simple_descent_walks_to_the_edge() {
    let g: ElevationGrid = vec![vec![0, 10, 20, 30, 40]];
    let mut visited = new_flag_grid(5, 1);
    let mut paths: Vec<RiverPath> = Vec::new();
    let mut rng = StdRng::seed_from_u64(3);
    trace_river((4, 0), 10, &g, &mut visited, &mut paths, &mut rng);
    assert_eq!(paths.len(), 1);
    assert_eq!(paths[0].points, vec![(4, 0), (3, 0), (2, 0), (1, 0), (0, 0)]);
    assert_eq!(paths[0].volume, 10);
    assert!(paths[0].points.len() <= 5);
}

#[test]
fn trivial_walk_is_not_recorded() {
    let g = filled(1, 1, 5);
    let mut visited = new_flag_grid(1, 1);
    let mut paths: Vec<RiverPath> = Vec::new();
    let mut rng = StdRng::seed_from_u64(3);
    trace_river((0, 0), 10, &g, &mut visited, &mut paths, &mut rng);
    assert!(paths.is_empty());
}

#[test]
fn merge_accumulates_volume() {
    let g: ElevationGrid = vec![vec![0, 10, 20, 30, 40]];
    let mut visited = new_flag_grid(5, 1);
    let mut paths = vec![RiverPath { points: vec![(0, 0), (2, 0)], volume: 7 }];
    let mut rng = StdRng::seed_from_u64(11);
    trace_river((4, 0), 10, &g, &mut visited, &mut paths, &mut rng);
    assert_eq!(paths.len(), 1);
    assert_eq!(paths[0].volume, 17);
    assert_eq!(paths[0].points, vec![(0, 0), (2, 0), (4, 0), (3, 0)]);
    assert!(visited[0][2]);
}

#[test]
fn merge_volume_saturates() {
    let g: ElevationGrid = vec![vec![0, 10, 20]];
    let mut visited = new_flag_grid(3, 1);
    let mut paths = vec![RiverPath { points: vec![(1, 0)], volume: usize::MAX - 1 }];
    let mut rng = StdRng::seed_from_u64(5);
    trace_river((2, 0), 10, &g, &mut visited, &mut paths, &mut rng);
    assert_eq!(paths[0].volume, usize::MAX);
}

#[test]
fn shuffled_order_varies_with_the_seed() {
    let g = filled(3, 3, 5);
    let mut firsts = Vec::new();
    for seed in 0..64u64 {
        let mut visited = new_flag_grid(3, 3);
        let mut paths: Vec<RiverPath> = Vec::new();
        let mut rng = StdRng::seed_from_u64(seed);
        trace_river((1, 1), 1, &g, &mut visited, &mut paths, &mut rng);
        let first = paths[0].points[1];
        if !firsts.contains(&first) {
            firsts.push(first);
        }
    }
    assert!(firsts.len() >= 2);
}

#[test]
fn each_cell_is_claimed_by_one_walk() {
    let g = filled(6, 6, 5);
    let sources: Vec<(usize, usize)> = (0..6).flat_map(|y| (0..6).map(move |x| (x, y))).collect();
    let mut rng = StdRng::seed_from_u64(9);
    let paths = simulate_water_flow(&params(6, 6), sources, &g, &mut rng);
    let mut seen: Vec<(usize, usize)> = Vec::new();
    for p in &paths {
        assert!(p.points.len() > 1);
        for q in &p.points[1..] {
            assert!(!seen.contains(q));
            seen.push(*q);
        }
    }
    assert!(seen.len() <= 36);
}

#[test]
fn connecting_path_matches_terminus_only() {
    let paths = vec![
        RiverPath { points: vec![(0, 0), (1, 0)], volume: 1 },
        RiverPath { points: vec![(3, 3), (2, 2)], volume: 1 },
        RiverPath { points: vec![(2, 2), (5, 5)], volume: 1 },
    ];
    assert_eq!(find_connecting_path(&(2, 2), &paths), Some(1));
    assert_eq!(find_connecting_path(&(0, 0), &paths), None);
    assert_eq!(find_connecting_path(&(5, 5), &paths), Some(2));
}

#[test]
fn basin_membership() {
    let basins = vec![(1, 2), (3, 4)];
    assert!(_is_basin(&(3, 4), &basins));
    assert!(!_is_basin(&(4, 3), &basins));
    assert!(!_is_basin(&(0, 0), &Vec::new()));
}

#[test]
fn rounded_square_roots() {
    let cases = [(0, 0), (1, 1), (2, 1), (3, 2), (6, 2), (7, 3), (10, 3), (12, 3), (13, 4), (100, 10)];
    for (v, r) in cases {
        assert_eq!(rounded_sqrt(v), r, "volume {}", v);
    }
}

#[test]
fn lake_is_a_clipped_square() {
    let mut wm = new_flag_grid(5, 5);
    form_lake(&mut wm, &(1, 1), 4);
    for y in 0..5 {
        for x in 0..5 {
            assert_eq!(wm[y][x], x <= 3 && y <= 3, "cell {} {}", x, y);
        }
    }
}

#[test]
fn lake_one_cell_from_the_edge() {
    let mut wm = new_flag_grid(4, 4);
    form_lake(&mut wm, &(0, 1), 1);
    assert_eq!(count_water(&wm), 6);
    assert!(wm[0][0] && wm[1][0] && wm[2][0] && wm[0][1] && wm[1][1] && wm[2][1]);
}

#[test]
fn zero_volume_lake_carves_nothing() {
    let mut wm = new_flag_grid(3, 3);
    form_lake(&mut wm, &(1, 1), 0);
    assert_eq!(count_water(&wm), 0);
}

#[test]
fn lake_beyond_the_grid_carves_nothing() {
    let mut wm = new_flag_grid(3, 3);
    form_lake(&mut wm, &(10, 10), 9);
    assert_eq!(count_water(&wm), 0);
    form_lake(&mut wm, &(4, 1), 4);
    assert_eq!(count_water(&wm), 3);
}

#[test]
fn lakes_only_above_threshold() {
    let mut wm = new_flag_grid(7, 7);
    let paths = vec![
        RiverPath { points: vec![(0, 0), (1, 1)], volume: 1 },
        RiverPath { points: vec![(6, 6), (5, 5)], volume: 2 },
    ];
    carve_lakes(&mut wm, &paths, 1);
    assert!(!wm[1][1]);
    assert_eq!(count_water(&wm), 9);
    assert!(wm[4][4] && wm[6][6]);
}

#[test]
fn seeded_basins_become_water() {
    let mut wm = new_flag_grid(4, 4);
    seed_basins(&mut wm, &vec![(1, 2), (3, 0)]);
    assert!(wm[2][1] && wm[0][3]);
    assert_eq!(count_water(&wm), 2);
}

#[test]
fn shape_check() {
    assert!(check_shape(&filled(3, 2, 0), 3, 2));
    assert!(!check_shape(&filled(3, 2, 0), 2, 3));
    let mut g = filled(3, 2, 0);
    g[1].pop();
    assert!(!check_shape(&g, 3, 2));
}

#[test]
fn mismatched_dimensions_are_rejected() {
    let g = filled(4, 4, 0);
    let mut rng = StdRng::seed_from_u64(1);
    assert_eq!(generate_water_map(&params(5, 4), &g, &mut rng), Err(ConfigError::DimensionMismatch));
    assert_eq!(generate_water_map(&params(4, 3), &g, &mut rng), Err(ConfigError::DimensionMismatch));
}

#[test]
fn pit_becomes_water_in_the_full_map() {
    let mut g = filled(5, 5, 100);
    g[2][2] = 0;
    let mut rng = StdRng::seed_from_u64(1);
    let wm = generate_water_map(&params(5, 5), &g, &mut rng).unwrap();
    assert_eq!(wm.len(), 5);
    assert!(wm.iter().all(|r| r.len() == 5));
    assert!(wm[2][2]);
    assert_eq!(count_water(&wm), 1);
}

#[test]
fn peak_river_forms_a_lake() {
    let mut g = filled(5, 5, 0);
    g[2][2] = 1000;
    let mut rng = StdRng::seed_from_u64(4);
    let wm = generate_water_map(&params(5, 5), &g, &mut rng).unwrap();
    assert!(count_water(&wm) >= 9);
}

#[test]
fn empty_map_is_empty() {
    let mut rng = StdRng::seed_from_u64(1);
    let wm = generate_water_map(&params(3, 0), &Vec::new(), &mut rng).unwrap();
    assert!(wm.is_empty());
}

#[test]
fn descending_row_is_walked_to_the_far_edge() {
    let g: ElevationGrid = vec![vec![100, 80, 60, 40, 20]];
    let mut p = params(5, 1);
    p.initial_volume = 1;
    for seed in 0..8u64 {
        let mut rng = StdRng::seed_from_u64(seed);
        let paths = simulate_water_flow(&p, vec![(0, 0)], &g, &mut rng);
        assert_eq!(paths.len(), 1);
        assert_eq!(paths[0].points, vec![(0, 0), (1, 0), (2, 0), (3, 0), (4, 0)]);
        assert_eq!(paths[0].volume, 1);
    }
}

#[test]
fn pit_without_sources_gives_exactly_the_pit() {
    let mut g = filled(5, 5, 1000);
    g[2][2] = 0;
    let p = MapParams {
        width: 5,
        height: 5,
        river_elevation_threshold: 1000,
        slope_threshold: 0,
        lake_formation_threshold: 0,
        initial_volume: 1,
    };
    let mut rng = StdRng::seed_from_u64(2);
    let wm = generate_water_map(&p, &g, &mut rng).unwrap();
    let mut expected = vec![vec![false; 5]; 5];
    expected[2][2] = true;
    assert_eq!(wm, expected);
}

#[test]
fn no_lake_when_threshold_covers_all_sources() {
    let mut g = filled(5, 5, 0);
    g[2][2] = 1000;
    let mut p = params(5, 5);
    p.lake_formation_threshold = p.initial_volume;
    let mut rng = StdRng::seed_from_u64(4);
    let wm = generate_water_map(&p, &g, &mut rng).unwrap();
    assert_eq!(count_water(&wm), 0);
}

#[test]
fn two_sources_stay_within_the_point_bound() {
    let g: ElevationGrid = vec![vec![0, 10, 20, 30, 40, 30, 20, 10, 0]];
    let mut p = params(9, 1);
    p.initial_volume = 3;
    let mut rng = StdRng::seed_from_u64(6);
    let paths = simulate_water_flow(&p, vec![(4, 0), (0, 0)], &g, &mut rng);
    assert!(!paths.is_empty() && paths.len() <= 2);
    assert_eq!(paths[0].points[0], (4, 0));
    assert!(paths.iter().all(|q| q.volume == 3 && q.points.len() > 1));
    let total: usize = paths.iter().map(|q| q.points.len()).sum();
    assert!(total <= 2 + 9);
}
