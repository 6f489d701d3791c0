use vstd::prelude::*;
use crate::clusters::{ClusterModel, Cluster};
use crate::raster::{boundary_edges, solid_connected, DensityMap};
use crate::triangles::{point_bounded, triangles_from, triangles_from_indices, Point, Triangle, triangle_valid, triangle_bounded};
use visioncortex::PathSimplifyMode;

verus! {

/// The boundary paths that visioncortex traces around the solid cells of a
/// raster, in the raster's own cell-corner coordinates.
pub uninterp spec fn traced_paths(width: nat, height: nat, cells: Seq<bool>) -> Seq<Seq<(i32, i32)>>;

/// The point lists held in a vector of paths.
pub open spec fn path_view(v: Seq<Vec<(i32, i32)>>) -> Seq<Seq<(i32, i32)>> {
    v.map_values(|p: Vec<(i32, i32)>| p@)
}

/// Every point of every path lies on the cell corners of a `width` × `height`
/// raster.
pub open spec fn paths_within(paths: Seq<Seq<(i32, i32)>>, width: int, height: int) -> bool {
    forall|i: int, k: int|
        0 <= i < paths.len() && 0 <= k < paths[i].len() ==> 0 <= (#[trigger] paths[i][k]).0 <= width
            && 0 <= paths[i][k].1 <= height
}

/// Longest side that tracing takes: the simplification squares `i32`
/// coordinate differences.
pub const MAX_TRACE_SIDE: usize = 46340;

/// Longest boundary walk that tracing takes before it gives up.
pub const MAX_TRACE_BOUNDARY: u64 = 1_000_000;

/// Relies on visioncortex's `Cluster::image_to_paths` with
/// `PathSimplifyMode::Polygon`: the outer boundary of the raster first, then
/// one path per enclosed hole, with straight runs simplified. Each path is
/// walked on cell corners along sides between a solid and an empty cell (or
/// the outside), and a hole's path is shifted by the hole's offset inside the
/// raster, so every point lies in `0..=width` × `0..=height`; simplification
/// only drops points. The walker panics after 1,000,000 steps. Where two solid
/// cells touch only at a corner it can circle forever, so the solid cells must
/// be 4-connected: then, once the holes are filled, neither the outer image
/// nor a hole image has such a corner, and each walk takes every boundary side
/// at most once, which the bound on boundary sides keeps under the limit. The
/// simplification squares coordinate differences in `i32`, so each side is at
/// most 46340.
#[verifier::external_body]
pub(crate) fn trace_paths(raster: &DensityMap) -> (r: Vec<Vec<(i32, i32)>>)
    requires
        raster@.wf(),
        raster@.width <= MAX_TRACE_SIDE,
        raster@.height <= MAX_TRACE_SIDE,
        boundary_edges(raster@) <= MAX_TRACE_BOUNDARY,
        solid_connected(raster@),
    ensures
        path_view(r@) == traced_paths(raster@.width, raster@.height, raster@.cells),
        paths_within(path_view(r@), raster@.width as int, raster@.height as int),
{
    let mut image = visioncortex::BinaryImage::new_w_h(raster.width(), raster.height());
    for (i, solid) in raster.cells().iter().enumerate() {
        image.set_pixel_index(i, *solid);
    }
    let paths = visioncortex::clusters::Cluster::image_to_paths(&image, PathSimplifyMode::Polygon);
    paths.iter().map(|p| p.path.iter().map(|q| (q.x, q.y)).collect()).collect()
}

/// A point of a sub-raster path placed in world space: shifted by the
/// sub-raster's offset `(left, top)` in the map, then flipped so that y grows
/// upwards (`world_y = map_height - image_y`).
pub open spec fn world_point(q: (i32, i32), left: int, top: int, map_height: int) -> Point {
    Point { x: (q.0 + left) as i64, y: (map_height - (q.1 + top)) as i64 }
}

pub open spec fn world_path(path: Seq<(i32, i32)>, left: int, top: int, map_height: int) -> Seq<Point> {
    path.map_values(|q: (i32, i32)| world_point(q, left, top, map_height))
}

/// The world-space points of the first `k` paths, one after another.
pub open spec fn joined_paths(
    paths: Seq<Seq<(i32, i32)>>,
    left: int,
    top: int,
    map_height: int,
    k: nat,
) -> Seq<Point>
    decreases k,
{
    if k == 0 {
        Seq::empty()
    } else {
        joined_paths(paths, left, top, map_height, (k - 1) as nat) + world_path(
            paths[k - 1],
            left,
            top,
            map_height,
        )
    }
}

/// Where each of paths `1..k` starts among the joined points: the holes of
/// the polygon, in the form an ear-clipping pass takes them.
pub open spec fn hole_starts_upto(paths: Seq<Seq<(i32, i32)>>, k: nat) -> Seq<usize>
    decreases k,
{
    if k <= 1 {
        Seq::empty()
    } else {
        hole_starts_upto(paths, (k - 1) as nat).push(
            joined_paths(paths, 0, 0, 0, (k - 1) as nat).len() as usize,
        )
    }
}

/// Model of a polygon: outer boundary followed by its holes, and the index
/// where each hole starts.
pub struct PolygonModel {
    pub vertices: Seq<Point>,
    pub hole_starts: Seq<usize>,
}

/// The polygon of a list of paths: the first is the outer boundary, the
/// others are holes.
pub open spec fn polygon_of_paths(
    paths: Seq<Seq<(i32, i32)>>,
    left: int,
    top: int,
    map_height: int,
) -> PolygonModel {
    PolygonModel {
        vertices: joined_paths(paths, left, top, map_height, paths.len()),
        hole_starts: hole_starts_upto(paths, paths.len()),
    }
}

/// A polygon in world space with integer vertices, ready for ear clipping:
/// the outer boundary, then each hole, each hole starting at its entry of
/// `hole_starts`.
pub struct Polygon {
    vertices: Vec<Point>,
    hole_starts: Vec<usize>,
}

impl View for Polygon {
    type V = PolygonModel;

    closed spec fn view(&self) -> PolygonModel {
        PolygonModel { vertices: self.vertices@, hole_starts: self.hole_starts@ }
    }
}

impl Polygon {
    #[verifier::type_invariant]
    spec fn inv(self) -> bool {
        forall|i: int| 0 <= i < self.vertices@.len() ==> point_bounded(#[trigger] self.vertices@[i])
    }

    pub fn vertices(&self) -> (r: &Vec<Point>)
        ensures
            r@ == self@.vertices,
    {
        &self.vertices
    }

    pub fn hole_starts(&self) -> (r: &Vec<usize>)
        ensures
            r@ == self@.hole_starts,
    {
        &self.hole_starts
    }

    /// The triangles that an ear-clipping pass over this polygon names by
    /// corner indices: see `triangles_from_indices`.
    pub fn triangles(&self, indices: &Vec<usize>) -> (r: Vec<Triangle>)
        ensures
            r@ == triangles_from(self@.vertices, indices@),
            forall|i: int| 0 <= i < r@.len() ==> triangle_valid(#[trigger] r@[i]),
            forall|i: int| 0 <= i < r@.len() ==> triangle_bounded(#[trigger] r@[i]),
    {
        proof {
            use_type_invariant(self);
        }
        triangles_from_indices(&self.vertices, indices)
    }
}

proof fn lemma_joined_len(paths: Seq<Seq<(i32, i32)>>, left: int, top: int, map_height: int, k: nat)
    ensures
        joined_paths(paths, left, top, map_height, k).len() == joined_paths(paths, 0, 0, 0, k).len(),
    decreases k,
{
    if k > 0 {
        lemma_joined_len(paths, left, top, map_height, (k - 1) as nat);
    }
}

/// The joined points of paths inside a `width` × `height` sub-raster at
/// `(left, top)` lie in the sub-raster's box in world space.
pub proof fn lemma_joined_within(
    paths: Seq<Seq<(i32, i32)>>,
    left: int,
    top: int,
    map_height: int,
    width: int,
    height: int,
    k: nat,
)
    requires
        k <= paths.len(),
        paths_within(paths, width, height),
        0 <= left <= u32::MAX,
        0 <= top <= u32::MAX,
        0 <= map_height <= u32::MAX,
        width <= u32::MAX,
        height <= u32::MAX,
    ensures
        forall|j: int|
            0 <= j < joined_paths(paths, left, top, map_height, k).len() ==> left <= (
            #[trigger] joined_paths(paths, left, top, map_height, k)[j]).x <= left + width
                && map_height - top - height <= joined_paths(paths, left, top, map_height, k)[j].y
                <= map_height - top,
    decreases k,
{
    if k > 0 {
        lemma_joined_within(paths, left, top, map_height, width, height, (k - 1) as nat);
        let prev = joined_paths(paths, left, top, map_height, (k - 1) as nat);
        let cur = joined_paths(paths, left, top, map_height, k);
        let last = world_path(paths[k - 1], left, top, map_height);
        assert forall|j: int| 0 <= j < cur.len() implies left <= (#[trigger] cur[j]).x <= left + width
            && map_height - top - height <= cur[j].y <= map_height - top by {
            if j >= prev.len() {
                let q = paths[k - 1][j - prev.len()];
                assert(0 <= q.0 <= width && 0 <= q.1 <= height);
                assert(cur[j] == last[j - prev.len()]);
            } else {
                assert(cur[j] == prev[j]);
            }
        }
    }
}

/// Places the paths of a sub-raster whose top-left cell is `(left, top)` in
/// world space and joins them into one polygon: the first path is the outer
/// boundary, the others are holes.
pub fn polygon_from_paths(paths: &Vec<Vec<(i32, i32)>>, left: usize, top: usize, map_height: usize) -> (r:
    Polygon)
    requires
        left <= u32::MAX,
        top <= u32::MAX,
        map_height <= u32::MAX,
    ensures
        r@ == polygon_of_paths(path_view(paths@), left as int, top as int, map_height as int),
{
    let ghost ps = path_view(paths@);
    let mut vertices: Vec<Point> = Vec::new();
    let mut hole_starts: Vec<usize> = Vec::new();
    let mut k: usize = 0;
    while k < paths.len()
        invariant
            k <= paths@.len(),
            ps == path_view(paths@),
            left <= u32::MAX,
            top <= u32::MAX,
            map_height <= u32::MAX,
            vertices@ == joined_paths(ps, left as int, top as int, map_height as int, k as nat),
            hole_starts@ == hole_starts_upto(ps, k as nat),
            forall|i: int| 0 <= i < vertices@.len() ==> point_bounded(#[trigger] vertices@[i]),
        decreases paths@.len() - k,
    {
        if k > 0 {
            proof {
                lemma_joined_len(ps, left as int, top as int, map_height as int, k as nat);
            }
            hole_starts.push(vertices.len());
        }
        let path: &Vec<(i32, i32)> = &paths[k];
        let ghost before = vertices@;
        let mut j: usize = 0;
        while j < path.len()
            invariant
                j <= path@.len(),
                path@ == ps[k as int],
                left <= u32::MAX,
                top <= u32::MAX,
                map_height <= u32::MAX,
                vertices@ == before + world_path(path@.take(j as int), left as int, top as int, map_height as int),
                forall|i: int| 0 <= i < vertices@.len() ==> point_bounded(#[trigger] vertices@[i]),
            decreases path@.len() - j,
        {
            let (px, py) = path[j];
            let x: i64 = px as i64 + left as i64;
            let y: i64 = map_height as i64 - (py as i64 + top as i64);
            let p = Point { x, y };
            proof {
                assert(p == world_point(path@[j as int], left as int, top as int, map_height as int));
                assert(world_path(path@.take(j + 1), left as int, top as int, map_height as int)
                    == world_path(path@.take(j as int), left as int, top as int, map_height as int).push(p));
            }
            vertices.push(p);
            j = j + 1;
        }
        proof {
            assert(path@.take(j as int) == path@);
        }
        k = k + 1;
    }
    proof {
        assert(ps.len() == paths@.len());
    }
    let r = Polygon { vertices, hole_starts };
    r
}

} // verus!
