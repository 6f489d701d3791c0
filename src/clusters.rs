use vstd::prelude::*;
use crate::raster::{
    lemma_cell_index, lemma_index_cell, side_by_side, solid_connected, solid_walk, DensityMap, Raster,
};
use visioncortex::BinaryImage;

verus! {

/// The clusters that visioncortex finds in a raster, each as its cells `(x, y)`.
pub uninterp spec fn components_of(width: nat, height: nat, cells: Seq<bool>) -> Seq<
    Seq<(usize, usize)>,
>;

pub open spec fn in_some_cluster(cs: Seq<Seq<(usize, usize)>>, p: (usize, usize)) -> bool {
    exists|i: int, k: int| 0 <= i < cs.len() && 0 <= k < cs[i].len() && #[trigger] cs[i][k] == p
}

/// The clusters partition the solid cells of `m`: every cluster is non-empty,
/// every listed cell is solid, every solid cell is listed, and no cell is
/// listed twice.
pub open spec fn partitions_solid_cells(cs: Seq<Seq<(usize, usize)>>, m: Raster) -> bool {
    &&& forall|i: int| 0 <= i < cs.len() ==> #[trigger] cs[i].len() > 0
    &&& forall|i: int, k: int|
        0 <= i < cs.len() && 0 <= k < cs[i].len() ==> m.solid(
            #[trigger] cs[i][k].0 as int,
            cs[i][k].1 as int,
        )
    &&& forall|x: usize, y: usize| #[trigger] m.solid(x as int, y as int) ==> in_some_cluster(cs, (x, y))
    &&& forall|i: int, k: int, j: int, l: int|
        0 <= i < cs.len() && 0 <= k < cs[i].len() && 0 <= j < cs.len() && 0 <= l < cs[j].len() && (i
            != j || k != l) ==> #[trigger] cs[i][k] != #[trigger] cs[j][l]
}

/// Cells of different clusters are never side by side (4-connectivity).
pub open spec fn clusters_separated(cs: Seq<Seq<(usize, usize)>>) -> bool {
    forall|i: int, k: int, j: int, l: int|
        0 <= i < cs.len() && 0 <= k < cs[i].len() && 0 <= j < cs.len() && 0 <= l < cs[j].len() && i
            != j ==> !adjacent(#[trigger] cs[i][k], #[trigger] cs[j][l])
}

pub open spec fn adjacent(p: (usize, usize), q: (usize, usize)) -> bool {
    side_by_side((p.0 as int, p.1 as int), (q.0 as int, q.1 as int))
}

/// `w` steps from cell to cell of `cells`, each step to a cell that shares a
/// side with the previous one.
pub open spec fn cells_walk(cells: Seq<(usize, usize)>, w: Seq<(usize, usize)>) -> bool {
    &&& w.len() > 0
    &&& forall|i: int| 0 <= i < w.len() ==> cells.contains(#[trigger] w[i])
    &&& forall|i: int| 0 <= i < w.len() - 1 ==> adjacent(#[trigger] w[i], w[i + 1])
}

/// The cells are 4-connected: any two are joined by a walk over cells that
/// share sides.
pub open spec fn cells_connected(cells: Seq<(usize, usize)>) -> bool {
    forall|p: (usize, usize), q: (usize, usize)|
        #[trigger] cells.contains(p) && #[trigger] cells.contains(q) ==> exists|w: Seq<(usize, usize)>|
            cells_walk(cells, w) && w[0] == p && w.last() == q
}

/// Every cluster is 4-connected.
pub open spec fn clusters_connected(cs: Seq<Seq<(usize, usize)>>) -> bool {
    forall|i: int| 0 <= i < cs.len() ==> cells_connected(#[trigger] cs[i])
}

/// The cell lists held in a vector of vectors.
pub open spec fn nested_view(v: Seq<Vec<(usize, usize)>>) -> Seq<Seq<(usize, usize)>> {
    v.map_values(|c: Vec<(usize, usize)>| c@)
}

/// Relies on visioncortex's `BinaryImage::to_clusters(false)`: it groups the
/// set pixels into 4-connected clusters; every set pixel is added to exactly
/// one cluster, next to a set pixel above or to its left when there is one,
/// and clusters merge only through a shared side (merges move whole
/// clusters); empty clusters are dropped. It
/// panics on more than `u32::MAX` pixels, and it reads pixels through `i32`
/// coordinates, so each side must fit in an `i32`.
#[verifier::external_body]
fn connected_components(map: &DensityMap) -> (r: Vec<Vec<(usize, usize)>>)
    requires
        map@.wf(),
        map@.width * map@.height <= u32::MAX,
        map@.width <= i32::MAX,
        map@.height <= i32::MAX,
    ensures
        nested_view(r@) == components_of(map@.width, map@.height, map@.cells),
        partitions_solid_cells(nested_view(r@), map@),
        clusters_separated(nested_view(r@)),
        clusters_connected(nested_view(r@)),
{
    let mut image = BinaryImage::new_w_h(map.width(), map.height());
    for (i, solid) in map.cells().iter().enumerate() {
        image.set_pixel_index(i, *solid);
    }
    let clusters = image.to_clusters(false).clusters;
    clusters.iter().map(|c| c.points.iter().map(|p| (p.x as usize, p.y as usize)).collect()).collect()
}

/// Smallest x among the first `k` cells.
pub open spec fn min_x(cells: Seq<(usize, usize)>, k: nat) -> int
    decreases k,
{
    if k <= 1 {
        cells[0].0 as int
    } else {
        let m = min_x(cells, (k - 1) as nat);
        if (cells[k - 1].0 as int) < m {
            cells[k - 1].0 as int
        } else {
            m
        }
    }
}

/// Smallest y among the first `k` cells.
pub open spec fn min_y(cells: Seq<(usize, usize)>, k: nat) -> int
    decreases k,
{
    if k <= 1 {
        cells[0].1 as int
    } else {
        let m = min_y(cells, (k - 1) as nat);
        if (cells[k - 1].1 as int) < m {
            cells[k - 1].1 as int
        } else {
            m
        }
    }
}

/// Largest x among the first `k` cells.
pub open spec fn max_x(cells: Seq<(usize, usize)>, k: nat) -> int
    decreases k,
{
    if k <= 1 {
        cells[0].0 as int
    } else {
        let m = max_x(cells, (k - 1) as nat);
        if (cells[k - 1].0 as int) > m {
            cells[k - 1].0 as int
        } else {
            m
        }
    }
}

/// Largest y among the first `k` cells.
pub open spec fn max_y(cells: Seq<(usize, usize)>, k: nat) -> int
    decreases k,
{
    if k <= 1 {
        cells[0].1 as int
    } else {
        let m = max_y(cells, (k - 1) as nat);
        if (cells[k - 1].1 as int) > m {
            cells[k - 1].1 as int
        } else {
            m
        }
    }
}

/// Model of a cluster: its cells in the full map, and the sub-raster cropped
/// to their bounding box, whose top-left cell is `(left, top)` of the map.
pub struct ClusterModel {
    pub cells: Seq<(usize, usize)>,
    pub left: int,
    pub top: int,
    pub raster: Raster,
}

/// The cluster made of `cells` (non-empty): the bounding box and the cropped
/// sub-raster in which exactly the cluster's own cells are solid.
pub open spec fn cluster_of(cells: Seq<(usize, usize)>) -> ClusterModel {
    let n = cells.len();
    let left = min_x(cells, n);
    let top = min_y(cells, n);
    let w = max_x(cells, n) - left + 1;
    let h = max_y(cells, n) - top + 1;
    ClusterModel {
        cells,
        left,
        top,
        raster: Raster {
            width: w as nat,
            height: h as nat,
            cells: Seq::new(
                (w * h) as nat,
                |i: int| cells.contains(((left + i % w) as usize, (top + i / w) as usize)),
            ),
        },
    }
}

proof fn lemma_extremes(cells: Seq<(usize, usize)>, k: nat)
    requires
        1 <= k <= cells.len(),
    ensures
        forall|j: int|
            0 <= j < k ==> min_x(cells, k) <= #[trigger] cells[j].0 <= max_x(cells, k) && min_y(
                cells,
                k,
            ) <= cells[j].1 <= max_y(cells, k),
        exists|j: int| 0 <= j < k && #[trigger] cells[j].0 == max_x(cells, k),
        exists|j: int| 0 <= j < k && #[trigger] cells[j].1 == max_y(cells, k),
        exists|j: int| 0 <= j < k && #[trigger] cells[j].0 == min_x(cells, k),
        exists|j: int| 0 <= j < k && #[trigger] cells[j].1 == min_y(cells, k),
    decreases k,
{
    if k > 1 {
        let p = (k - 1) as nat;
        lemma_extremes(cells, p);
        let last = (k - 1) as int;
        let a = choose|j: int| 0 <= j < p && #[trigger] cells[j].0 == max_x(cells, p);
        let b = choose|j: int| 0 <= j < p && #[trigger] cells[j].1 == max_y(cells, p);
        let c = choose|j: int| 0 <= j < p && #[trigger] cells[j].0 == min_x(cells, p);
        let d = choose|j: int| 0 <= j < p && #[trigger] cells[j].1 == min_y(cells, p);
        if cells[last].0 as int > max_x(cells, p) {
            assert(cells[last].0 == max_x(cells, k));
        } else {
            assert(cells[a].0 == max_x(cells, k));
        }
        if cells[last].1 as int > max_y(cells, p) {
            assert(cells[last].1 == max_y(cells, k));
        } else {
            assert(cells[b].1 == max_y(cells, k));
        }
        if (cells[last].0 as int) < min_x(cells, p) {
            assert(cells[last].0 == min_x(cells, k));
        } else {
            assert(cells[c].0 == min_x(cells, k));
        }
        if (cells[last].1 as int) < min_y(cells, p) {
            assert(cells[last].1 == min_y(cells, k));
        } else {
            assert(cells[d].1 == min_y(cells, k));
        }
    } else {
        assert(max_x(cells, k) == cells[0].0 as int);
        assert(max_y(cells, k) == cells[0].1 as int);
    }
}

proof fn lemma_contains_push<A>(s: Seq<A>, a: A, b: A)
    ensures
        s.push(a).contains(b) == (s.contains(b) || a == b),
{
    if s.contains(b) {
        let j = choose|j: int| 0 <= j < s.len() && s[j] == b;
        assert(s.push(a)[j] == b);
    }
    if a == b {
        assert(s.push(a)[s.len() as int] == b);
    }
    if s.push(a).contains(b) {
        let j = choose|j: int| 0 <= j < s.len() + 1 && s.push(a)[j] == b;
        if j < s.len() {
            assert(s[j] == b);
        }
    }
}

/// Inside its box, a cell of the cropped sub-raster is solid exactly when the
/// matching cell of the map belongs to the cluster.
pub proof fn lemma_crop_solid(cells: Seq<(usize, usize)>, x: int, y: int)
    requires
        cells.len() > 0,
        0 <= x < cluster_of(cells).raster.width,
        0 <= y < cluster_of(cells).raster.height,
    ensures
        cluster_of(cells).raster.solid(x, y) == cells.contains(
            ((cluster_of(cells).left + x) as usize, (cluster_of(cells).top + y) as usize),
        ),
{
    let c = cluster_of(cells);
    let n = cells.len();
    lemma_extremes(cells, n);
    let w = max_x(cells, n) - min_x(cells, n) + 1;
    let h = max_y(cells, n) - min_y(cells, n) + 1;
    assert(w >= 1 && h >= 1);
    assert(c.raster.width == w && c.raster.height == h);
    lemma_cell_index(w, h, x, y);
}

/// Every cell of a cluster is solid in its cropped sub-raster, shifted by the
/// crop's offset.
proof fn lemma_cell_in_crop(cells: Seq<(usize, usize)>, cell: (usize, usize))
    requires
        cells.len() > 0,
        cells.contains(cell),
    ensures
        cluster_of(cells).raster.solid(
            cell.0 as int - cluster_of(cells).left,
            cell.1 as int - cluster_of(cells).top,
        ),
{
    let n = cells.len();
    lemma_extremes(cells, n);
    let j = choose|j: int| 0 <= j < cells.len() && cells[j] == cell;
    assert(min_x(cells, n) <= cells[j].0 <= max_x(cells, n));
    assert(min_y(cells, n) <= cells[j].1 <= max_y(cells, n));
    let c = cluster_of(cells);
    lemma_crop_solid(cells, cell.0 as int - c.left, cell.1 as int - c.top);
    assert(((c.left + (cell.0 as int - c.left)) as usize, (c.top + (cell.1 as int - c.top)) as usize)
        == cell);
}

/// A walk over a cluster's cells, shifted by the crop's offset, is a walk
/// over the solid cells of its sub-raster.
proof fn lemma_crop_walk(cells: Seq<(usize, usize)>, cw: Seq<(usize, usize)>)
    requires
        cells.len() > 0,
        cells_walk(cells, cw),
    ensures
        solid_walk(
            cluster_of(cells).raster,
            Seq::new(
                cw.len(),
                |i: int| (cw[i].0 as int - cluster_of(cells).left, cw[i].1 as int - cluster_of(cells).top),
            ),
        ),
{
    let c = cluster_of(cells);
    let rw = Seq::new(cw.len(), |i: int| (cw[i].0 as int - c.left, cw[i].1 as int - c.top));
    assert forall|i: int| 0 <= i < rw.len() implies c.raster.solid((#[trigger] rw[i]).0, rw[i].1) by {
        lemma_cell_in_crop(cells, cw[i]);
    }
    assert forall|i: int| 0 <= i < rw.len() - 1 implies side_by_side(#[trigger] rw[i], rw[i + 1]) by {
        assert(adjacent(cw[i], cw[i + 1]));
    }
}

/// The cropped sub-raster of a 4-connected cluster has 4-connected solid cells.
pub proof fn lemma_crop_connected(cells: Seq<(usize, usize)>)
    requires
        cells.len() > 0,
        cells_connected(cells),
    ensures
        solid_connected(cluster_of(cells).raster),
{
    let c = cluster_of(cells);
    let r = c.raster;
    assert forall|a: (int, int), b: (int, int)|
        #[trigger] r.solid(a.0, a.1) && #[trigger] r.solid(b.0, b.1) implies exists|w: Seq<(int, int)>|
        solid_walk(r, w) && w[0] == a && w.last() == b by {
        lemma_crop_solid(cells, a.0, a.1);
        lemma_crop_solid(cells, b.0, b.1);
        let p = ((c.left + a.0) as usize, (c.top + a.1) as usize);
        let q = ((c.left + b.0) as usize, (c.top + b.1) as usize);
        assert(cells.contains(p) && cells.contains(q));
        let cw = choose|w: Seq<(usize, usize)>| cells_walk(cells, w) && w[0] == p && w.last() == q;
        lemma_crop_walk(cells, cw);
        let rw = Seq::new(cw.len(), |i: int| (cw[i].0 as int - c.left, cw[i].1 as int - c.top));
        let n = cells.len();
        lemma_extremes(cells, n);
        let jx = choose|j: int| 0 <= j < n && #[trigger] cells[j].0 == max_x(cells, n);
        let jy = choose|j: int| 0 <= j < n && #[trigger] cells[j].1 == max_y(cells, n);
        assert(0 <= c.left + a.0 <= cells[jx].0 && 0 <= c.left + b.0 <= cells[jx].0);
        assert(0 <= c.top + a.1 <= cells[jy].1 && 0 <= c.top + b.1 <= cells[jy].1);
        assert(rw[0] == a);
        assert(rw.last() == b);
    }
}

/// A cluster of solid cells with its cropped sub-raster.
pub struct Cluster {
    cells: Vec<(usize, usize)>,
    left: usize,
    top: usize,
    raster: DensityMap,
}

impl View for Cluster {
    type V = ClusterModel;

    closed spec fn view(&self) -> ClusterModel {
        ClusterModel {
            cells: self.cells@,
            left: self.left as int,
            top: self.top as int,
            raster: self.raster@,
        }
    }
}

impl Cluster {
    /// Number of cells.
    pub fn size(&self) -> (r: usize)
        ensures
            r == self@.cells.len(),
    {
        self.cells.len()
    }

    /// The cells `(x, y)` in the full map.
    pub fn cells(&self) -> (r: &Vec<(usize, usize)>)
        ensures
            r@ == self@.cells,
    {
        &self.cells
    }

    /// Column of the map where the sub-raster starts.
    pub fn left(&self) -> (r: usize)
        ensures
            r == self@.left,
    {
        self.left
    }

    /// Row of the map where the sub-raster starts.
    pub fn top(&self) -> (r: usize)
        ensures
            r == self@.top,
    {
        self.top
    }

    /// The cropped sub-raster: only this cluster's cells are solid in it.
    pub fn raster(&self) -> (r: &DensityMap)
        ensures
            r@ == self@.raster,
    {
        &self.raster
    }

    /// Builds the cluster of `cells`, which lie inside a `width` × `height` grid.
    fn from_cells(cells: Vec<(usize, usize)>, width: usize, height: usize) -> (r: Cluster)
        requires
            cells@.len() > 0,
            width * height <= usize::MAX,
            forall|j: int|
                0 <= j < cells@.len() ==> (#[trigger] cells@[j]).0 < width && cells@[j].1 < height,
        ensures
            r@ == cluster_of(cells@),
            r@.raster.wf(),
            r@.left + r@.raster.width <= width,
            r@.top + r@.raster.height <= height,
            r@.raster.width >= 1,
            r@.raster.height >= 1,
    {
        let n: usize = cells.len();
        let mut lx: usize = cells[0].0;
        let mut ly: usize = cells[0].1;
        let mut hx: usize = cells[0].0;
        let mut hy: usize = cells[0].1;
        let mut k: usize = 1;
        while k < n
            invariant
                n == cells@.len(),
                1 <= k <= n,
                lx == min_x(cells@, k as nat),
                ly == min_y(cells@, k as nat),
                hx == max_x(cells@, k as nat),
                hy == max_y(cells@, k as nat),
            decreases n - k,
        {
            let (x, y) = cells[k];
            if x < lx {
                lx = x;
            }
            if y < ly {
                ly = y;
            }
            if x > hx {
                hx = x;
            }
            if y > hy {
                hy = y;
            }
            k = k + 1;
        }
        proof {
            lemma_extremes(cells@, n as nat);
            let ww = hx - lx + 1;
            let hh = hy - ly + 1;
            assert(ww <= width && hh <= height);
            assert(ww * hh <= width * height) by (nonlinear_arith)
                requires
                    0 <= ww <= width,
                    0 <= hh <= height,
            ;
        }
        let w: usize = hx - lx + 1;
        let h: usize = hy - ly + 1;
        let ghost model = cluster_of(cells@);
        let mut raster = DensityMap::new(w, h);
        let mut k: usize = 0;
        while k < n
            invariant
                n == cells@.len(),
                k <= n,
                model == cluster_of(cells@),
                model.left == lx,
                model.top == ly,
                model.raster.width == w,
                model.raster.height == h,
                forall|j: int|
                    0 <= j < n ==> lx <= (#[trigger] cells@[j]).0 <= hx && ly <= cells@[j].1 <= hy,
                hx - lx + 1 == w,
                hy - ly + 1 == h,
                raster@.width == w,
                raster@.height == h,
                raster@.wf(),
                forall|i: int|
                    0 <= i < w * h ==> #[trigger] raster@.cells[i] == cells@.take(k as int).contains(
                        ((lx + i % (w as int)) as usize, (ly + i / (w as int)) as usize),
                    ),
            decreases n - k,
        {
            let (x, y) = cells[k];
            let ghost old_cells = raster@.cells;
            let ghost idx = (y - ly) * w + (x - lx);
            proof {
                lemma_cell_index(w as int, h as int, (x - lx) as int, (y - ly) as int);
            }
            raster.set_pixel(x - lx, y - ly, true);
            proof {
                assert forall|i: int| 0 <= i < w * h implies #[trigger] raster@.cells[i]
                    == cells@.take(k + 1).contains(
                    ((lx + i % (w as int)) as usize, (ly + i / (w as int)) as usize),
                ) by {
                    lemma_index_cell(w as int, h as int, i);
                    let ix = i % (w as int);
                    let iy = i / (w as int);
                    let p = ((lx + ix) as usize, (ly + iy) as usize);
                    assert(cells@.take(k + 1) == cells@.take(k as int).push(cells@[k as int]));
                    lemma_contains_push(cells@.take(k as int), cells@[k as int], p);
                    if p == cells@[k as int] {
                        assert(ix == x - lx && iy == y - ly);
                        assert(i == idx);
                    }
                    if i == idx {
                        assert(ix == x - lx && iy == y - ly);
                        assert(p == cells@[k as int]);
                    }
                }
            }
            k = k + 1;
        }
        proof {
            assert(cells@.take(n as int) == cells@);
            assert(raster@.cells == model.raster.cells);
        }
        Cluster { cells, left: lx, top: ly, raster }
    }
}

/// The clusters that survive the speckle filter: those with more than
/// `min_size` cells, in their original order.
pub open spec fn surviving(cs: Seq<Seq<(usize, usize)>>, min_size: nat) -> Seq<Seq<(usize, usize)>>
    decreases cs.len(),
{
    if cs.len() == 0 {
        Seq::empty()
    } else {
        let prev = surviving(cs.drop_last(), min_size);
        if cs.last().len() > min_size {
            prev.push(cs.last())
        } else {
            prev
        }
    }
}

/// Speckle filter: every cluster that survives is one of the clusters and has
/// more than `min_size` cells, so no cluster of `min_size` cells or fewer
/// survives.
pub proof fn lemma_speckle_filter(cs: Seq<Seq<(usize, usize)>>, min_size: nat)
    ensures
        forall|i: int|
            0 <= i < surviving(cs, min_size).len() ==> (#[trigger] surviving(cs, min_size)[i]).len()
                > min_size && cs.contains(surviving(cs, min_size)[i]),
        surviving(cs, min_size).len() <= cs.len(),
    decreases cs.len(),
{
    if cs.len() > 0 {
        let prev = cs.drop_last();
        lemma_speckle_filter(prev, min_size);
        assert forall|i: int| 0 <= i < surviving(cs, min_size).len() implies cs.contains(
            #[trigger] surviving(cs, min_size)[i],
        ) by {
            if i < surviving(prev, min_size).len() {
                let j = choose|j: int| 0 <= j < prev.len() && prev[j] == surviving(prev, min_size)[i];
                assert(cs[j] == prev[j]);
            } else {
                assert(cs[cs.len() - 1] == cs.last());
            }
        }
    }
}

/// With no size threshold, every (non-empty) cluster survives.
proof fn lemma_surviving_all(cs: Seq<Seq<(usize, usize)>>)
    requires
        forall|i: int| 0 <= i < cs.len() ==> #[trigger] cs[i].len() > 0,
    ensures
        surviving(cs, 0) == cs,
    decreases cs.len(),
{
    if cs.len() > 0 {
        lemma_surviving_all(cs.drop_last());
        assert(cs.drop_last().push(cs.last()) == cs);
    }
}

/// The cell lists of a sequence of clusters.
pub open spec fn cluster_cells(cs: Seq<Cluster>) -> Seq<Seq<(usize, usize)>> {
    cs.map_values(|c: Cluster| c@.cells)
}

/// The sub-raster of a cluster fits in the map at the cluster's offset.
pub open spec fn fits_in(c: ClusterModel, m: Raster) -> bool {
    &&& c.raster.wf()
    &&& c.raster.width >= 1
    &&& c.raster.height >= 1
    &&& 0 <= c.left
    &&& 0 <= c.top
    &&& c.left + c.raster.width <= m.width
    &&& c.top + c.raster.height <= m.height
}

fn copy_cells(src: &Vec<(usize, usize)>) -> (r: Vec<(usize, usize)>)
    ensures
        r@ == src@,
{
    let mut out: Vec<(usize, usize)> = Vec::with_capacity(src.len());
    let mut i: usize = 0;
    while i < src.len()
        invariant
            i <= src@.len(),
            out@ == src@.take(i as int),
        decreases src@.len() - i,
    {
        out.push(src[i]);
        i = i + 1;
        proof {
            assert(out@ == src@.take(i as int));
        }
    }
    proof {
        assert(src@.take(i as int) == src@);
    }
    out
}

/// The clusters of `map` with more than `min_size` cells (the speckle filter),
/// in the order in which clustering yields them, each with its cropped
/// sub-raster. Smaller clusters never appear.
pub fn extract(map: &DensityMap, min_size: usize) -> (r: Vec<Cluster>)
    requires
        map@.wf(),
        map@.width * map@.height <= u32::MAX,
        map@.width <= i32::MAX,
        map@.height <= i32::MAX,
    ensures
        r@.len() == surviving(components_of(map@.width, map@.height, map@.cells), min_size as nat).len(),
        forall|i: int|
            0 <= i < r@.len() ==> (#[trigger] r@[i])@ == cluster_of(
                surviving(components_of(map@.width, map@.height, map@.cells), min_size as nat)[i],
            ),
        forall|i: int| 0 <= i < r@.len() ==> (#[trigger] r@[i])@.cells.len() > min_size,
        forall|i: int| 0 <= i < r@.len() ==> fits_in((#[trigger] r@[i])@, map@),
        forall|i: int| 0 <= i < r@.len() ==> solid_connected((#[trigger] r@[i])@.raster),
        partitions_solid_cells(components_of(map@.width, map@.height, map@.cells), map@),
        clusters_separated(components_of(map@.width, map@.height, map@.cells)),
        clusters_connected(components_of(map@.width, map@.height, map@.cells)),
{
    let comps = connected_components(map);
    clusters_from(map, &comps, min_size)
}

/// The clusters of `comps` (the components of `map`) larger than `min_size`.
fn clusters_from(map: &DensityMap, comps: &Vec<Vec<(usize, usize)>>, min_size: usize) -> (r: Vec<
    Cluster,
>)
    requires
        map@.wf(),
        map@.width * map@.height <= u32::MAX,
        nested_view(comps@) == components_of(map@.width, map@.height, map@.cells),
        partitions_solid_cells(nested_view(comps@), map@),
        clusters_separated(nested_view(comps@)),
        clusters_connected(nested_view(comps@)),
    ensures
        r@.len() == surviving(components_of(map@.width, map@.height, map@.cells), min_size as nat).len(),
        forall|i: int|
            0 <= i < r@.len() ==> (#[trigger] r@[i])@ == cluster_of(
                surviving(components_of(map@.width, map@.height, map@.cells), min_size as nat)[i],
            ),
        forall|i: int| 0 <= i < r@.len() ==> (#[trigger] r@[i])@.cells.len() > min_size,
        forall|i: int| 0 <= i < r@.len() ==> fits_in((#[trigger] r@[i])@, map@),
        forall|i: int| 0 <= i < r@.len() ==> solid_connected((#[trigger] r@[i])@.raster),
        partitions_solid_cells(components_of(map@.width, map@.height, map@.cells), map@),
        clusters_separated(components_of(map@.width, map@.height, map@.cells)),
        clusters_connected(components_of(map@.width, map@.height, map@.cells)),
{
    let ghost cs = components_of(map@.width, map@.height, map@.cells);
    let mut out: Vec<Cluster> = Vec::new();
    let mut i: usize = 0;
    while i < comps.len()
        invariant
            i <= comps@.len(),
            map@.wf(),
            map@.width * map@.height <= u32::MAX,
            nested_view(comps@) == cs,
            partitions_solid_cells(cs, map@),
            clusters_separated(cs),
            clusters_connected(cs),
            forall|q: int| 0 <= q < out@.len() ==> solid_connected((#[trigger] out@[q])@.raster),
            out@.len() == surviving(cs.take(i as int), min_size as nat).len(),
            forall|q: int|
                0 <= q < out@.len() ==> (#[trigger] out@[q])@ == cluster_of(
                    surviving(cs.take(i as int), min_size as nat)[q],
                ),
            forall|q: int| 0 <= q < out@.len() ==> fits_in((#[trigger] out@[q])@, map@),
        decreases comps@.len() - i,
    {
        proof {
            assert(cs.take(i + 1).drop_last() == cs.take(i as int));
            assert(cs.take(i + 1).last() == cs[i as int]);
            assert(comps@[i as int]@ == cs[i as int]);
        }
        if comps[i].len() > min_size {
            let cells = copy_cells(&comps[i]);
            proof {
                assert forall|j: int| 0 <= j < cells@.len() implies (#[trigger] cells@[j]).0
                    < map@.width && cells@[j].1 < map@.height by {
                    assert(cells@[j] == cs[i as int][j]);
                    assert(map@.solid(cs[i as int][j].0 as int, cs[i as int][j].1 as int));
                }
            }
            let c = Cluster::from_cells(cells, map.width(), map.height());
            proof {
                assert(cells_connected(cs[i as int]));
                lemma_crop_connected(cells@);
            }
            out.push(c);
        }
        i = i + 1;
    }
    proof {
        assert(cs.take(i as int) == cs);
        lemma_speckle_filter(cs, min_size as nat);
    }
    out
}

/// All clusters of `map`, before any size filtering. Together they cover
/// exactly the solid cells, with no cell in two clusters; each is
/// 4-connected, and cells of different clusters never share a side.
pub fn find_clusters(map: &DensityMap) -> (r: Vec<Cluster>)
    requires
        map@.wf(),
        map@.width * map@.height <= u32::MAX,
        map@.width <= i32::MAX,
        map@.height <= i32::MAX,
    ensures
        cluster_cells(r@) == components_of(map@.width, map@.height, map@.cells),
        partitions_solid_cells(cluster_cells(r@), map@),
        clusters_separated(cluster_cells(r@)),
        clusters_connected(cluster_cells(r@)),
        forall|i: int| 0 <= i < r@.len() ==> (#[trigger] r@[i])@ == cluster_of(r@[i]@.cells),
{
    let comps = connected_components(map);
    let ghost cs = components_of(map@.width, map@.height, map@.cells);
    let r = clusters_from(map, &comps, 0);
    proof {
        lemma_surviving_all(cs);
        assert(cluster_cells(r@) == cs);
    }
    r
}

} // verus!
