use std::hash::{Hash, Hasher};
use terrain_gen::body::TerrainBody;
use terrain_gen::clusters::find_clusters;
use terrain_gen::contour::polygon_from_paths;
use terrain_gen::generation::{
    generate, hilly_density_map, select_strategy, string_to_i32_seed, swiss_cheese_density_map,
    GenerationStrategy,
};
use terrain_gen::physics::NoUserData;
use terrain_gen::raster::DensityMap;
use terrain_gen::triangles::{triangles_from_indices, Point, Triangle};

fn pt(x: i64, y: i64) -> Point {
    Point { x, y }
}

#[test]
fn seed_is_low_bits_of_default_hash() {
    let mut hasher = std::collections::hash_map::DefaultHasher::new();
    "whacka-molee_match".hash(&mut hasher);
    assert_eq!(string_to_i32_seed("whacka-molee_match"), hasher.finish() as i32);
    assert_eq!(string_to_i32_seed("abc"), string_to_i32_seed("abc"));
    assert_ne!(string_to_i32_seed("abc"), string_to_i32_seed("abd"));
}

#[test]
fn strategy_follows_seed_parity() {
    assert_eq!(select_strategy(0), GenerationStrategy::HillyWithNoise);
    assert_eq!(select_strategy(7), GenerationStrategy::SwissCheese);
    assert_eq!(select_strategy(-3), GenerationStrategy::SwissCheese);
    assert_eq!(select_strategy(-4), GenerationStrategy::HillyWithNoise);
    assert_eq!(select_strategy(i32::MIN), GenerationStrategy::HillyWithNoise);
    assert_eq!(select_strategy(i32::MAX), GenerationStrategy::SwissCheese);
}

#[test]
fn hilly_map_is_solid_below_clamped_surface() {
    // 3 columns x 4 rows; one surface row per column
    let surface: Vec<i64> = vec![2, -5, 9];
    let map = hilly_density_map(3, 4, &surface);
    assert_eq!((map.width(), map.height()), (3, 4));
    for y in 0..4 {
        assert_eq!(map.get_pixel(0, y), y >= 2);
        assert!(map.get_pixel(1, y));
        assert_eq!(map.get_pixel(2, y), y == 3);
    }
    assert_eq!(map.solid_count(), 2 + 4 + 1);
}

#[test]
fn swiss_cheese_carves_above_threshold() {
    let noise: Vec<i64> = vec![0, 250, 251, 1000, -10, 249];
    let map = swiss_cheese_density_map(3, 2, &noise);
    assert_eq!(map.cells(), &vec![true, true, false, false, true, true]);
}

#[test]
fn generation_is_deterministic() {
    for seed in ["alpha", "whacka-molee_match", ""] {
        let s1 = select_strategy(string_to_i32_seed(seed));
        let s2 = select_strategy(string_to_i32_seed(seed));
        assert_eq!(s1, s2);
        let len = if s1 == GenerationStrategy::HillyWithNoise { 100 } else { 100 * 100 };
        let field: Vec<i64> = (0..len).map(|i| ((i * 37) % 140) as i64 - 20).collect();
        let a = generate(s1, 100, 100, &field);
        let b = generate(s2, 100, 100, &field);
        assert_eq!(a.cells(), b.cells());
    }
}

#[test]
fn generate_dispatches_on_strategy() {
    let hilly = generate(GenerationStrategy::HillyWithNoise, 1, 2, &vec![1]);
    assert_eq!(hilly.cells(), &vec![false, true]);
    let field: Vec<i64> = vec![1, 300];
    let cheese = generate(GenerationStrategy::SwissCheese, 1, 2, &field);
    assert_eq!(cheese.cells(), &vec![true, false]);
}

#[test]
fn density_map_basics() {
    let mut map = DensityMap::new(4, 3);
    assert_eq!(map.solid_count(), 0);
    map.set_pixel(3, 2, true);
    assert!(map.get_pixel(3, 2));
    assert!(!map.get_pixel(2, 3 - 1));
    assert_eq!(map.cells()[11], true);
    assert_eq!(map.solid_count(), 1);
    assert!(DensityMap::from_cells(2, 2, vec![true; 3]).is_none());
}

#[test]
fn clusters_partition_solid_cells() {
    // a checkerboard-ish pattern with diagonal touches, which 4-connectivity keeps apart
    let (w, h) = (9usize, 7usize);
    let solid = |x: usize, y: usize| (x * 7 + y * 3) % 5 < 2 || (x == 4);
    let mut cells = Vec::new();
    for y in 0..h {
        for x in 0..w {
            cells.push(solid(x, y));
        }
    }
    let map = DensityMap::from_cells(w, h, cells).unwrap();
    let clusters = find_clusters(&map);
    let mut seen = vec![0u32; w * h];
    for c in &clusters {
        assert!(c.size() > 0);
        for &(x, y) in c.cells() {
            assert!(solid(x, y));
            seen[y * w + x] += 1;
            // the sub-raster holds exactly this cluster's cells
            assert!(c.raster().get_pixel(x - c.left(), y - c.top()));
        }
        assert_eq!(c.raster().solid_count(), c.size());
    }
    for y in 0..h {
        for x in 0..w {
            assert_eq!(seen[y * w + x], if solid(x, y) { 1 } else { 0 });
        }
    }
    let diag = DensityMap::from_cells(2, 2, vec![true, false, false, true]).unwrap();
    assert_eq!(find_clusters(&diag).len(), 2);
}

#[test]
fn paths_are_flipped_into_world_space() {
    let paths = vec![vec![(0, 0), (3, 0), (3, 2)], vec![(1, 1)]];
    let poly = polygon_from_paths(&paths, 10, 5, 100);
    assert_eq!(poly.vertices(), &vec![pt(10, 95), pt(13, 95), pt(13, 93), pt(11, 94)]);
    assert_eq!(poly.hole_starts(), &vec![3]);
}

#[test]
fn degenerate_and_out_of_range_triangles_are_dropped() {
    let v = vec![pt(0, 0), pt(4, 0), pt(0, 4), pt(8, 0), pt(0, 0)];
    // ccw, cw, collinear, coincident corners, out of range, trailing pair
    let idx = vec![0, 1, 2, 0, 2, 1, 0, 1, 3, 0, 4, 1, 0, 1, 9, 1, 2];
    let ts = triangles_from_indices(&v, &idx);
    let ccw = Triangle { a: pt(0, 0), b: pt(4, 0), c: pt(0, 4) };
    assert_eq!(ts, vec![ccw, ccw]);
    assert_eq!(ccw.doubled_area(), 16);
    assert!(ccw.is_valid());
    let cw = Triangle { a: pt(0, 0), b: pt(0, 4), c: pt(4, 0) };
    assert_eq!(cw.doubled_area(), -16);
    assert!(!cw.is_valid());
}

#[test]
fn body_keeps_exactly_the_accepted_triangles() {
    let good = Triangle { a: pt(0, 0), b: pt(4, 0), c: pt(0, 4) };
    let flat = Triangle { a: pt(0, 0), b: pt(1, 1), c: pt(2, 2) };
    let other = Triangle { a: pt(10, 0), b: pt(14, 0), c: pt(10, 4) };
    let clockwise = Triangle { a: pt(0, 0), b: pt(0, 1), c: pt(1, 0) };
    let body = TerrainBody::build(
        &vec![good, flat, other, good, clockwise],
        &vec![true, false, false, true, true],
    );
    assert_eq!(body.fixture_count(), 3);
    assert_eq!(body.fixtures(), &vec![good, good, clockwise]);
}

#[test]
fn boundary_edges_count_exposed_sides() {
    let solid = DensityMap::from_cells(3, 3, vec![true; 9]).unwrap();
    assert!(solid.boundary_at_most(12));
    assert!(!solid.boundary_at_most(11));
    let ring = DensityMap::from_cells(3, 3, vec![true, true, true, true, false, true, true, true, true]).unwrap();
    assert!(ring.boundary_at_most(16));
    assert!(!ring.boundary_at_most(15));
    assert!(DensityMap::new(5, 5).boundary_at_most(0));
}

#[test]
fn no_user_data_is_a_plain_marker() {
    assert_eq!(NoUserData::default(), NoUserData);
}
