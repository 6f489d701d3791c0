use box2d_rs::b2_math::B2vec2;
use box2d_rs::shapes::b2_polygon_shape::B2polygonShape;
use terrain_gen::body::TerrainBody;
use terrain_gen::clusters::{extract, find_clusters};
use terrain_gen::contour::Polygon;
use terrain_gen::raster::DensityMap;
use terrain_gen::terrain::{collect_triangles, raster_to_polygons, MIN_SPECKLE_SIZE};
use terrain_gen::triangles::{Point, Triangle};

fn map_with(width: usize, height: usize, solid: impl Fn(usize, usize) -> bool) -> DensityMap {
    let mut cells = Vec::new();
    for y in 0..height {
        for x in 0..width {
            cells.push(solid(x, y));
        }
    }
    DensityMap::from_cells(width, height, cells).unwrap()
}

fn earcut_indices(polygon: &Polygon) -> Vec<usize> {
    let data: Vec<[f64; 2]> =
        polygon.vertices().iter().map(|p| [p.x as f64, p.y as f64]).collect();
    let mut out: Vec<usize> = Vec::new();
    earcut::Earcut::new().earcut(data, polygon.hole_starts(), &mut out);
    out
}

fn triangulate(map: &DensityMap, speckle: usize) -> (Vec<Polygon>, Vec<Triangle>) {
    let polygons = raster_to_polygons(map, speckle);
    let indices: Vec<Vec<usize>> = polygons.iter().map(earcut_indices).collect();
    let triangles = collect_triangles(&polygons, &indices);
    (polygons, triangles)
}

fn engine_accepts(t: &Triangle) -> bool {
    let corners: Vec<B2vec2> =
        [t.a, t.b, t.c].iter().map(|p| B2vec2::new(p.x as f32, p.y as f32)).collect();
    let mut shape = B2polygonShape::default();
    shape.set(&corners);
    shape.validate()
}

fn total_area(triangles: &[Triangle]) -> i128 {
    triangles.iter().map(|t| t.doubled_area()).sum::<i128>()
}

fn bounds(triangles: &[Triangle]) -> (i64, i64, i64, i64) {
    let pts: Vec<Point> = triangles.iter().flat_map(|t| [t.a, t.b, t.c]).collect();
    (
        pts.iter().map(|p| p.x).min().unwrap(),
        pts.iter().map(|p| p.x).max().unwrap(),
        pts.iter().map(|p| p.y).min().unwrap(),
        pts.iter().map(|p| p.y).max().unwrap(),
    )
}

#[test]
fn all_empty_map_gives_no_geometry() {
    let map = DensityMap::new(100, 100);
    assert!(extract(&map, MIN_SPECKLE_SIZE).is_empty());
    assert!(find_clusters(&map).is_empty());
    let (polygons, triangles) = triangulate(&map, MIN_SPECKLE_SIZE);
    assert!(polygons.is_empty());
    assert!(triangles.is_empty());
    let body = TerrainBody::build(&triangles, &vec![]);
    assert_eq!(body.fixture_count(), 0);
}

#[test]
fn all_solid_map_is_one_rectangle() {
    let map = map_with(100, 100, |_, _| true);
    let clusters = extract(&map, MIN_SPECKLE_SIZE);
    assert_eq!(clusters.len(), 1);
    assert_eq!(clusters[0].size(), 10000);
    assert_eq!(clusters[0].left(), 0);
    assert_eq!(clusters[0].top(), 0);
    assert_eq!(clusters[0].raster().width(), 100);
    assert_eq!(clusters[0].raster().height(), 100);
    let (polygons, triangles) = triangulate(&map, MIN_SPECKLE_SIZE);
    assert_eq!(polygons.len(), 1);
    assert!(polygons[0].hole_starts().is_empty());
    for p in polygons[0].vertices() {
        assert!(0 <= p.x && p.x <= 100 && 0 <= p.y && p.y <= 100);
    }
    assert!(triangles.len() >= 2);
    assert!(triangles.iter().all(|t| t.is_valid()));
    let area = total_area(&triangles);
    assert!((area - 20000).abs() <= 400, "doubled area {}", area);
    let accepted: Vec<bool> = triangles.iter().map(engine_accepts).collect();
    assert!(accepted.iter().all(|a| *a));
    let body = TerrainBody::build(&triangles, &accepted);
    assert_eq!(body.fixture_count(), triangles.len());
}

#[test]
fn two_squares_give_two_disjoint_triangle_sets() {
    let square = |x0: usize, y0: usize| move |x: usize, y: usize| x0 <= x && x < x0 + 5 && y0 <= y && y < y0 + 5;
    let (a, b) = (square(2, 3), square(20, 10));
    let map = map_with(40, 30, |x, y| a(x, y) || b(x, y));
    let clusters = extract(&map, 10);
    assert_eq!(clusters.len(), 2);
    assert_eq!(clusters[0].size(), 25);
    assert_eq!(clusters[1].size(), 25);
    let (polygons, _) = triangulate(&map, 10);
    assert_eq!(polygons.len(), 2);
    let sets: Vec<Vec<Triangle>> = polygons
        .iter()
        .map(|p| p.triangles(&earcut_indices(p)))
        .collect();
    assert!(sets.iter().all(|s| s.len() >= 2));
    let (ax0, ax1, ay0, ay1) = bounds(&sets[0]);
    let (bx0, bx1, by0, by1) = bounds(&sets[1]);
    assert!(ax1 <= bx0 || bx1 <= ax0 || ay1 <= by0 || by1 <= ay0);
    for s in &sets {
        assert_eq!(total_area(s), 50);
    }
}

#[test]
fn small_square_is_dropped_as_speckle() {
    let map = map_with(20, 20, |x, y| (4..7).contains(&x) && (4..7).contains(&y));
    assert_eq!(find_clusters(&map).len(), 1);
    assert_eq!(find_clusters(&map)[0].size(), 9);
    assert!(extract(&map, 10).is_empty());
    let (polygons, triangles) = triangulate(&map, 10);
    assert!(polygons.is_empty());
    assert!(triangles.is_empty());
    assert_eq!(TerrainBody::build(&triangles, &vec![]).fixture_count(), 0);
}

#[test]
fn ring_keeps_its_hole() {
    // 10x10 solid square at (5, 5) with a 4x4 hole in its middle
    let map = map_with(20, 20, |x, y| {
        let inside = (5..15).contains(&x) && (5..15).contains(&y);
        let hole = (8..12).contains(&x) && (8..12).contains(&y);
        inside && !hole
    });
    let clusters = extract(&map, MIN_SPECKLE_SIZE);
    assert_eq!(clusters.len(), 1);
    assert_eq!(clusters[0].size(), 84);
    assert_eq!((clusters[0].left(), clusters[0].top()), (5, 5));
    let (polygons, triangles) = triangulate(&map, MIN_SPECKLE_SIZE);
    assert_eq!(polygons.len(), 1);
    assert_eq!(polygons[0].hole_starts().len(), 1);
    assert_eq!(total_area(&triangles), 2 * 84);
    assert_eq!(bounds(&triangles), (5, 15, 5, 15));
}

#[test]
fn cluster_too_long_to_trace_gives_no_polygon() {
    // one column of 46341 solid cells: longer than tracing takes
    let map = map_with(1, 46341, |_, _| true);
    let clusters = extract(&map, MIN_SPECKLE_SIZE);
    assert_eq!(clusters.len(), 1);
    assert_eq!(clusters[0].size(), 46341);
    assert!(clusters[0].polygon(46341).is_none());
    assert!(raster_to_polygons(&map, MIN_SPECKLE_SIZE).is_empty());
}

#[test]
fn polygon_vertices_stay_inside_the_map() {
    let map = map_with(30, 20, |x, y| (x + 2 * y) % 7 < 4 && y > 1);
    let (polygons, triangles) = triangulate(&map, 3);
    assert!(!polygons.is_empty());
    for p in &polygons {
        for v in p.vertices() {
            assert!(0 <= v.x && v.x <= 30 && 0 <= v.y && v.y <= 20);
        }
    }
    for t in &triangles {
        for v in [t.a, t.b, t.c] {
            assert!(0 <= v.x && v.x <= 30 && 0 <= v.y && v.y <= 20);
        }
    }
}

#[test]
fn corner_touching_cells_are_traced_as_separate_clusters() {
    // solid at (0,0), (2,0), (0,1), (1,1): (1,1) and (2,0) touch only at a corner
    let map = DensityMap::from_cells(3, 2, vec![true, false, true, true, true, false]).unwrap();
    let clusters = find_clusters(&map);
    assert_eq!(clusters.len(), 2);
    let mut sizes: Vec<usize> = clusters.iter().map(|c| c.size()).collect();
    sizes.sort();
    assert_eq!(sizes, vec![1, 3]);
    let (polygons, triangles) = triangulate(&map, 0);
    assert_eq!(polygons.len(), 2);
    // simplification may cut the corners of such small shapes
    let area = total_area(&triangles);
    assert!(0 < area && area <= 2 * 4, "doubled area {}", area);
    assert!(triangles.iter().all(|t| t.is_valid()));
}

#[test]
fn raising_the_threshold_only_drops_polygons() {
    // clusters of 4, 9 and 25 cells
    let map = map_with(30, 10, |x, y| {
        (x < 2 && y < 2) || ((5..8).contains(&x) && (3..6).contains(&y)) || ((12..17).contains(&x) && (2..7).contains(&y))
    });
    let low = raster_to_polygons(&map, 3);
    let high = raster_to_polygons(&map, 8);
    assert_eq!(low.len(), 3);
    assert_eq!(high.len(), 2);
    let kept: Vec<&Vec<Point>> = high.iter().map(|p| p.vertices()).collect();
    let lows: Vec<&Vec<Point>> = low.iter().map(|p| p.vertices()).collect();
    assert_eq!(kept, lows[1..].to_vec());
}
