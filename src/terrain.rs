use vstd::prelude::*;
use crate::clusters::{
    cluster_of, clusters_connected, clusters_separated, components_of, extract, fits_in,
    lemma_speckle_filter, partitions_solid_cells, surviving, Cluster, ClusterModel,
};
use crate::contour::{
    lemma_joined_within, polygon_from_paths, polygon_of_paths, trace_paths, traced_paths, Polygon,
    PolygonModel, MAX_TRACE_BOUNDARY, MAX_TRACE_SIDE,
};
use crate::raster::{boundary_edges, solid_connected, DensityMap, Raster};
use crate::triangles::{
    lemma_triangle_corners, triangles_from, Point, Triangle, triangle_bounded, triangle_valid,
};

verus! {

/// Clusters with at most this many cells are dropped as speckles.
pub const MIN_SPECKLE_SIZE: usize = 10;

/// A sub-raster small enough to trace: each side at most `MAX_TRACE_SIDE`
/// and at most `MAX_TRACE_BOUNDARY` boundary edges.
pub open spec fn traceable(r: Raster) -> bool {
    r.width <= MAX_TRACE_SIDE && r.height <= MAX_TRACE_SIDE && boundary_edges(r) <= MAX_TRACE_BOUNDARY
}

/// Every vertex of the polygon lies in the map's box `0..=width` ×
/// `0..=height` in world space.
pub open spec fn polygon_inside(p: PolygonModel, width: int, height: int) -> bool {
    forall|j: int|
        0 <= j < p.vertices.len() ==> 0 <= (#[trigger] p.vertices[j]).x <= width && 0
            <= p.vertices[j].y <= height
}

/// The polygon traced around a cluster, placed in a map of the given height;
/// none when the sub-raster is too large to trace or tracing yields no path.
pub open spec fn cluster_polygon(c: ClusterModel, map_height: int) -> Option<PolygonModel> {
    let paths = traced_paths(c.raster.width, c.raster.height, c.raster.cells);
    if !traceable(c.raster) || paths.len() == 0 {
        None
    } else {
        Some(polygon_of_paths(paths, c.left, c.top, map_height))
    }
}

/// Polygons of the first `k` clusters, skipping those without a path.
pub open spec fn polygons_upto(cs: Seq<Seq<(usize, usize)>>, map_height: int, k: nat) -> Seq<
    PolygonModel,
>
    decreases k,
{
    if k == 0 {
        Seq::empty()
    } else {
        let prev = polygons_upto(cs, map_height, (k - 1) as nat);
        match cluster_polygon(cluster_of(cs[k - 1]), map_height) {
            Some(p) => prev.push(p),
            None => prev,
        }
    }
}

/// The polygons of a map: one per cluster that survives the speckle filter
/// and yields at least one path, in cluster order.
pub open spec fn terrain_polygons(m: crate::raster::Raster, min_size: nat) -> Seq<PolygonModel> {
    let cs = surviving(components_of(m.width, m.height, m.cells), min_size);
    polygons_upto(cs, m.height as int, cs.len())
}

impl Cluster {
    /// Traces this cluster's sub-raster and places the paths in a map of the
    /// given height; none when the sub-raster is too large to trace or no path
    /// comes out. The vertices lie in the sub-raster's box in world space.
    pub fn polygon(&self, map_height: usize) -> (r: Option<Polygon>)
        requires
            self@.raster.wf(),
            solid_connected(self@.raster),
            self@.left <= u32::MAX,
            self@.top <= u32::MAX,
            map_height <= u32::MAX,
        ensures
            r is Some <==> cluster_polygon(self@, map_height as int) is Some,
            r matches Some(p) ==> cluster_polygon(self@, map_height as int) == Some(p@),
            r matches Some(p) ==> forall|j: int|
                0 <= j < p@.vertices.len() ==> self@.left <= (#[trigger] p@.vertices[j]).x
                    <= self@.left + self@.raster.width && map_height - self@.top
                    - self@.raster.height <= p@.vertices[j].y <= map_height - self@.top,
    {
        let raster = self.raster();
        if raster.width() > MAX_TRACE_SIDE || raster.height() > MAX_TRACE_SIDE
            || !raster.boundary_at_most(MAX_TRACE_BOUNDARY) {
            return None;
        }
        let paths = trace_paths(raster);
        if paths.len() == 0 {
            None
        } else {
            let p = polygon_from_paths(&paths, self.left(), self.top(), map_height);
            proof {
                let ps = traced_paths(self@.raster.width, self@.raster.height, self@.raster.cells);
                lemma_joined_within(
                    ps,
                    self@.left,
                    self@.top,
                    map_height as int,
                    self@.raster.width as int,
                    self@.raster.height as int,
                    ps.len(),
                );
            }
            Some(p)
        }
    }
}

/// The polygons of every cluster of `map` with more than `speckle_filter`
/// cells: clustering, speckle filter, contour tracing, and placement in world
/// space. Clusters at or below the threshold contribute nothing, and every
/// vertex lies inside the map.
pub fn raster_to_polygons(map: &DensityMap, speckle_filter: usize) -> (r: Vec<Polygon>)
    requires
        map@.wf(),
        map@.width * map@.height <= u32::MAX,
        map@.width <= i32::MAX,
        map@.height <= i32::MAX,
    ensures
        partitions_solid_cells(components_of(map@.width, map@.height, map@.cells), map@),
        clusters_separated(components_of(map@.width, map@.height, map@.cells)),
        clusters_connected(components_of(map@.width, map@.height, map@.cells)),
        forall|i: int|
            0 <= i < r@.len() ==> polygon_inside(
                (#[trigger] r@[i])@,
                map@.width as int,
                map@.height as int,
            ),
        r@.len() == terrain_polygons(map@, speckle_filter as nat).len(),
        forall|i: int|
            0 <= i < r@.len() ==> (#[trigger] r@[i])@ == terrain_polygons(map@, speckle_filter as nat)[i],
{
    let clusters = extract(map, speckle_filter);
    let ghost cs = surviving(components_of(map@.width, map@.height, map@.cells), speckle_filter as nat);
    let map_height: usize = map.height();
    let mut out: Vec<Polygon> = Vec::new();
    let mut i: usize = 0;
    while i < clusters.len()
        invariant
            i <= clusters@.len(),
            clusters@.len() == cs.len(),
            map_height == map@.height,
            map@.width * map@.height <= u32::MAX,
            forall|q: int| 0 <= q < out@.len() ==> polygon_inside(
                (#[trigger] out@[q])@,
                map@.width as int,
                map@.height as int,
            ),
            forall|q: int| 0 <= q < clusters@.len() ==> (#[trigger] clusters@[q])@ == cluster_of(cs[q]),
            forall|q: int| 0 <= q < clusters@.len() ==> fits_in((#[trigger] clusters@[q])@, map@),
            forall|q: int| 0 <= q < clusters@.len() ==> solid_connected((#[trigger] clusters@[q])@.raster),
            out@.len() == polygons_upto(cs, map_height as int, i as nat).len(),
            forall|q: int|
                0 <= q < out@.len() ==> (#[trigger] out@[q])@ == polygons_upto(
                    cs,
                    map_height as int,
                    i as nat,
                )[q],
        decreases clusters@.len() - i,
    {
        let c: &Cluster = &clusters[i];
        proof {
            let m = map@;
            let cm = c@;
            assert(fits_in(cm, m));
            let (rw, rh, w, h) = (
                cm.raster.width as int,
                cm.raster.height as int,
                m.width as int,
                m.height as int,
            );
            assert(rw * rh <= w * h && w <= w * h && h <= w * h) by (nonlinear_arith)
                requires
                    1 <= rw <= w,
                    1 <= rh <= h,
            ;
        }
        let p = c.polygon(map_height);
        match p {
            Some(p) => out.push(p),
            None => {},
        }
        i = i + 1;
    }
    out
}

/// The triangles that ear clipping names for each polygon, one after another:
/// `indices[i]` holds the corner indices for `polygons[i]`.
pub open spec fn polygon_triangles_upto(polygons: Seq<PolygonModel>, indices: Seq<Seq<usize>>, k: nat) -> Seq<
    Triangle,
>
    decreases k,
{
    if k == 0 {
        Seq::empty()
    } else {
        polygon_triangles_upto(polygons, indices, (k - 1) as nat) + triangles_from(
            polygons[k - 1].vertices,
            indices[k - 1],
        )
    }
}

/// The terrain's active triangles: for each polygon, the valid,
/// counter-clockwise triangles that its corner-index list names, in order.
pub fn collect_triangles(polygons: &Vec<Polygon>, indices: &Vec<Vec<usize>>) -> (r: Vec<Triangle>)
    requires
        indices@.len() == polygons@.len(),
    ensures
        r@ == polygon_triangles_upto(
            polygons@.map_values(|p: Polygon| p@),
            indices@.map_values(|v: Vec<usize>| v@),
            polygons@.len() as nat,
        ),
        forall|i: int| 0 <= i < r@.len() ==> triangle_valid(#[trigger] r@[i]),
        forall|i: int| 0 <= i < r@.len() ==> triangle_bounded(#[trigger] r@[i]),
{
    let ghost ps = polygons@.map_values(|p: Polygon| p@);
    let ghost ix = indices@.map_values(|v: Vec<usize>| v@);
    let mut out: Vec<Triangle> = Vec::new();
    let mut k: usize = 0;
    while k < polygons.len()
        invariant
            k <= polygons@.len(),
            indices@.len() == polygons@.len(),
            ps == polygons@.map_values(|p: Polygon| p@),
            ix == indices@.map_values(|v: Vec<usize>| v@),
            out@ == polygon_triangles_upto(ps, ix, k as nat),
            forall|i: int| 0 <= i < out@.len() ==> triangle_valid(#[trigger] out@[i]),
            forall|i: int| 0 <= i < out@.len() ==> triangle_bounded(#[trigger] out@[i]),
        decreases polygons@.len() - k,
    {
        let mut ts = polygons[k].triangles(&indices[k]);
        let ghost prev = out@;
        let ghost added = ts@;
        out.append(&mut ts);
        proof {
            assert(out@ == prev + added);
            assert(forall|i: int| 0 <= i < added.len() ==> out@[prev.len() + i] == added[i]);
        }
        k = k + 1;
    }
    out
}

/// The point lies in the map's box `0..=width` × `0..=height` in world space.
pub open spec fn point_inside(p: Point, width: int, height: int) -> bool {
    0 <= p.x <= width && 0 <= p.y <= height
}

/// All three corners lie in the map's box.
pub open spec fn triangle_inside(t: Triangle, width: int, height: int) -> bool {
    point_inside(t.a, width, height) && point_inside(t.b, width, height) && point_inside(
        t.c,
        width,
        height,
    )
}

/// Triangles stay inside the map: when every polygon's vertices lie in the
/// map's box, so do the corners of every triangle that ear clipping names for
/// them.
pub proof fn lemma_triangles_inside_map(
    polygons: Seq<PolygonModel>,
    indices: Seq<Seq<usize>>,
    width: int,
    height: int,
    k: nat,
)
    requires
        k <= polygons.len(),
        forall|q: int| 0 <= q < polygons.len() ==> polygon_inside(#[trigger] polygons[q], width, height),
    ensures
        forall|i: int|
            0 <= i < polygon_triangles_upto(polygons, indices, k).len() ==> triangle_inside(
                #[trigger] polygon_triangles_upto(polygons, indices, k)[i],
                width,
                height,
            ),
    decreases k,
{
    if k > 0 {
        lemma_triangles_inside_map(polygons, indices, width, height, (k - 1) as nat);
        let prev = polygon_triangles_upto(polygons, indices, (k - 1) as nat);
        let poly = polygons[k - 1];
        let ix = indices[k - 1];
        let added = triangles_from(poly.vertices, ix);
        let cur = polygon_triangles_upto(polygons, indices, k);
        lemma_triangle_corners(poly.vertices, ix, ix.len() / 3);
        assert(polygon_inside(poly, width, height));
        assert forall|i: int| 0 <= i < cur.len() implies triangle_inside(
            #[trigger] cur[i],
            width,
            height,
        ) by {
            if i < prev.len() {
                assert(cur[i] == prev[i]);
            } else {
                let t = added[i - prev.len()];
                assert(cur[i] == t);
                let ja = choose|j: int| 0 <= j < poly.vertices.len() && poly.vertices[j] == t.a;
                let jb = choose|j: int| 0 <= j < poly.vertices.len() && poly.vertices[j] == t.b;
                let jc = choose|j: int| 0 <= j < poly.vertices.len() && poly.vertices[j] == t.c;
                assert(point_inside(poly.vertices[ja], width, height));
                assert(point_inside(poly.vertices[jb], width, height));
                assert(point_inside(poly.vertices[jc], width, height));
            }
        }
    }
}

/// The polygon is traced from one of the clusters in `cs`.
pub open spec fn traced_from(
    cs: Seq<Seq<(usize, usize)>>,
    map_height: int,
    p: PolygonModel,
) -> bool {
    exists|c: Seq<(usize, usize)>| cs.contains(c) && cluster_polygon(cluster_of(c), map_height) == Some(p)
}

proof fn lemma_polygons_traced_from(cs: Seq<Seq<(usize, usize)>>, map_height: int, k: nat)
    requires
        k <= cs.len(),
    ensures
        forall|i: int|
            0 <= i < polygons_upto(cs, map_height, k).len() ==> traced_from(
                cs,
                map_height,
                #[trigger] polygons_upto(cs, map_height, k)[i],
            ),
    decreases k,
{
    if k > 0 {
        lemma_polygons_traced_from(cs, map_height, (k - 1) as nat);
        let prev = polygons_upto(cs, map_height, (k - 1) as nat);
        let cur = polygons_upto(cs, map_height, k);
        assert forall|i: int| 0 <= i < cur.len() implies traced_from(cs, map_height, #[trigger] cur[i]) by {
            if i < prev.len() {
                assert(cur[i] == prev[i]);
            } else {
                assert(cs.contains(cs[k - 1]));
                assert(cluster_polygon(cluster_of(cs[k - 1]), map_height) == Some(cur[i]));
            }
        }
    }
}

/// Speckles contribute no geometry: every polygon of the map is traced from
/// one of its clusters, and that cluster has more than `min_size` cells.
pub proof fn lemma_polygons_from_large_clusters(m: Raster, min_size: nat)
    ensures
        forall|i: int|
            0 <= i < terrain_polygons(m, min_size).len() ==> exists|c: Seq<(usize, usize)>|
                components_of(m.width, m.height, m.cells).contains(c) && c.len() > min_size
                    && cluster_polygon(cluster_of(c), m.height as int) == Some(
                    #[trigger] terrain_polygons(m, min_size)[i],
                ),
{
    let all = components_of(m.width, m.height, m.cells);
    let cs = surviving(all, min_size);
    lemma_polygons_traced_from(cs, m.height as int, cs.len());
    lemma_speckle_filter(all, min_size);
    assert forall|i: int| 0 <= i < terrain_polygons(m, min_size).len() implies exists|
        c: Seq<(usize, usize)>,
    |
        all.contains(c) && c.len() > min_size && cluster_polygon(cluster_of(c), m.height as int)
            == Some(#[trigger] terrain_polygons(m, min_size)[i]) by {
        let p = terrain_polygons(m, min_size)[i];
        assert(traced_from(cs, m.height as int, p));
        let c = choose|c: Seq<(usize, usize)>|
            cs.contains(c) && cluster_polygon(cluster_of(c), m.height as int) == Some(p);
        let j = choose|j: int| 0 <= j < cs.len() && cs[j] == c;
        assert(cs[j].len() > min_size && all.contains(cs[j]));
    }
}

/// `a` is a subsequence of `b`: its items appear in `b` in the same order.
pub open spec fn is_subsequence<A>(a: Seq<A>, b: Seq<A>) -> bool {
    exists|idx: Seq<int>|
        idx.len() == a.len() && (forall|i: int|
            0 <= i < a.len() ==> 0 <= #[trigger] idx[i] < b.len() && b[idx[i]] == a[i]) && (forall|
            i: int,
            j: int,
        | 0 <= i < j < a.len() ==> #[trigger] idx[i] < #[trigger] idx[j])
}

proof fn lemma_subsequence_by<A>(a: Seq<A>, b: Seq<A>, idx: Seq<int>)
    requires
        idx.len() == a.len(),
        forall|i: int| 0 <= i < a.len() ==> 0 <= #[trigger] idx[i] < b.len() && b[idx[i]] == a[i],
        forall|i: int, j: int| 0 <= i < j < a.len() ==> #[trigger] idx[i] < #[trigger] idx[j],
    ensures
        is_subsequence(a, b),
{
}

/// The polygons of the clusters `cs` that survive the threshold `min_size`.
pub open spec fn polygons_over(cs: Seq<Seq<(usize, usize)>>, map_height: int, min_size: nat) -> Seq<
    PolygonModel,
> {
    let s = surviving(cs, min_size);
    polygons_upto(s, map_height, s.len())
}

/// The polygon that cluster `c` adds at threshold `min_size`, if any.
pub open spec fn added_polygon(c: Seq<(usize, usize)>, map_height: int, min_size: nat) -> Seq<
    PolygonModel,
> {
    if c.len() > min_size {
        match cluster_polygon(cluster_of(c), map_height) {
            Some(p) => seq![p],
            None => Seq::empty(),
        }
    } else {
        Seq::empty()
    }
}

proof fn lemma_polygons_prefix(
    cs: Seq<Seq<(usize, usize)>>,
    c: Seq<(usize, usize)>,
    map_height: int,
    k: nat,
)
    requires
        k <= cs.len(),
    ensures
        polygons_upto(cs.push(c), map_height, k) == polygons_upto(cs, map_height, k),
    decreases k,
{
    if k > 0 {
        lemma_polygons_prefix(cs, c, map_height, (k - 1) as nat);
        assert(cs.push(c)[k - 1] == cs[k - 1]);
    }
}

proof fn lemma_polygons_over_push(
    cs: Seq<Seq<(usize, usize)>>,
    c: Seq<(usize, usize)>,
    map_height: int,
    min_size: nat,
)
    ensures
        polygons_over(cs.push(c), map_height, min_size) == polygons_over(cs, map_height, min_size)
            + added_polygon(c, map_height, min_size),
{
    let s = surviving(cs, min_size);
    assert(cs.push(c).drop_last() == cs);
    if c.len() > min_size {
        assert(surviving(cs.push(c), min_size) == s.push(c));
        lemma_polygons_prefix(s, c, map_height, s.len());
        assert(s.push(c)[s.len() as int] == c);
        match cluster_polygon(cluster_of(c), map_height) {
            Some(p) => {
                assert(polygons_upto(s, map_height, s.len()).push(p) == polygons_upto(
                    s,
                    map_height,
                    s.len(),
                ) + seq![p]);
            },
            None => {
                assert(polygons_upto(s, map_height, s.len()) == polygons_upto(s, map_height, s.len())
                    + Seq::<PolygonModel>::empty());
            },
        }
    } else {
        assert(surviving(cs.push(c), min_size) == s);
        assert(polygons_over(cs, map_height, min_size) == polygons_over(cs, map_height, min_size)
            + Seq::<PolygonModel>::empty());
    }
}

proof fn lemma_threshold_monotone_over(
    cs: Seq<Seq<(usize, usize)>>,
    map_height: int,
    low: nat,
    high: nat,
)
    requires
        low <= high,
    ensures
        is_subsequence(polygons_over(cs, map_height, high), polygons_over(cs, map_height, low)),
    decreases cs.len(),
{
    let a = polygons_over(cs, map_height, high);
    let b = polygons_over(cs, map_height, low);
    if cs.len() == 0 {
        assert(a.len() == 0);
        lemma_subsequence_by(a, b, Seq::<int>::empty());
    } else {
        let prev = cs.drop_last();
        let c = cs.last();
        assert(prev.push(c) == cs);
        lemma_threshold_monotone_over(prev, map_height, low, high);
        lemma_polygons_over_push(prev, c, map_height, high);
        lemma_polygons_over_push(prev, c, map_height, low);
        let pa = polygons_over(prev, map_height, high);
        let pb = polygons_over(prev, map_height, low);
        let idx = choose|idx: Seq<int>|
            idx.len() == pa.len() && (forall|i: int|
                0 <= i < pa.len() ==> 0 <= #[trigger] idx[i] < pb.len() && pb[idx[i]] == pa[i]) && (
            forall|i: int, j: int| 0 <= i < j < pa.len() ==> #[trigger] idx[i] < #[trigger] idx[j]);
        let ea = added_polygon(c, map_height, high);
        let eb = added_polygon(c, map_height, low);
        if ea.len() == 0 {
            assert(a == pa + ea);
            assert(a == pa);
            assert forall|i: int| 0 <= i < a.len() implies 0 <= #[trigger] idx[i] < b.len() && b[idx[i]]
                == a[i] by {
                assert(b[idx[i]] == pb[idx[i]]);
            }
            lemma_subsequence_by(a, b, idx);
        } else {
            assert(eb == ea);
            let idx2 = idx.push(pb.len() as int);
            assert forall|i: int| 0 <= i < a.len() implies 0 <= #[trigger] idx2[i] < b.len()
                && b[idx2[i]] == a[i] by {
                if i < pa.len() {
                    assert(idx2[i] == idx[i]);
                    assert(b[idx[i]] == pb[idx[i]]);
                    assert(a[i] == pa[i]);
                } else {
                    assert(idx2[i] == pb.len());
                    assert(b[pb.len() as int] == eb[0]);
                    assert(a[i] == ea[0]);
                }
            }
            assert forall|i: int, j: int| 0 <= i < j < a.len() implies #[trigger] idx2[i]
                < #[trigger] idx2[j] by {
                if j < pa.len() {
                    assert(idx2[i] == idx[i] && idx2[j] == idx[j]);
                } else {
                    assert(idx2[i] == idx[i]);
                }
            }
            lemma_subsequence_by(a, b, idx2);
        }
    }
}

/// Raising the speckle threshold only removes polygons: the polygons at the
/// higher threshold are a subsequence of those at the lower one, unchanged
/// and in the same order.
pub proof fn lemma_threshold_monotone(m: Raster, low: nat, high: nat)
    requires
        low <= high,
    ensures
        is_subsequence(terrain_polygons(m, high), terrain_polygons(m, low)),
{
    lemma_threshold_monotone_over(components_of(m.width, m.height, m.cells), m.height as int, low, high);
}

} // verus!
