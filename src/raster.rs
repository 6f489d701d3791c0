use vstd::prelude::*;

verus! {

/// Mathematical model of a density map: `cells` holds the grid row by row.
pub struct Raster {
    pub width: nat,
    pub height: nat,
    pub cells: Seq<bool>,
}

impl Raster {
    pub open spec fn wf(self) -> bool {
        self.cells.len() == self.width * self.height
    }

    pub open spec fn in_bounds(self, x: int, y: int) -> bool {
        0 <= x < self.width && 0 <= y < self.height
    }

    /// Cell `(x, y)` lies inside the grid and is solid.
    pub open spec fn solid(self, x: int, y: int) -> bool {
        self.in_bounds(x, y) && self.cells[y * self.width + x]
    }
}

/// Row-major index of a cell lies inside the grid.
pub proof fn lemma_cell_index(width: int, height: int, x: int, y: int)
    requires
        0 <= x < width,
        0 <= y < height,
    ensures
        0 <= y * width + x < width * height,
        (y * width + x) % width == x,
        (y * width + x) / width == y,
{
    assert(0 <= y * width) by (nonlinear_arith)
        requires
            0 <= y,
            0 <= width,
    ;
    assert(y * width + x < width * height) by (nonlinear_arith)
        requires
            0 <= x < width,
            0 <= y < height,
    ;
    vstd::arithmetic::div_mod::lemma_fundamental_div_mod_converse(y * width + x, width, y, x);
}

/// An index below `width * height` names the cell `(i % width, i / width)`.
pub proof fn lemma_index_cell(width: int, height: int, i: int)
    requires
        0 <= width,
        0 <= height,
        0 <= i < width * height,
    ensures
        width > 0,
        0 <= i % width < width,
        0 <= i / width < height,
        (i / width) * width + i % width == i,
{
    if width <= 0 {
        assert(width * height <= 0) by (nonlinear_arith)
            requires
                width == 0,
                0 <= height,
        ;
    }
    vstd::arithmetic::div_mod::lemma_fundamental_div_mod(i, width);
    vstd::arithmetic::div_mod::lemma_div_pos_is_pos(i, width);
    vstd::arithmetic::div_mod::lemma_mod_pos_bound(i, width);
    assert(i / width < height) by {
        vstd::arithmetic::div_mod::lemma_div_is_ordered(i, width * height - 1, width);
        vstd::arithmetic::mul::lemma_mul_is_commutative(width, height);
        vstd::arithmetic::div_mod::lemma_div_multiples_vanish_fancy(height - 1, width - 1, width);
        assert((height - 1) * width + (width - 1) == width * height - 1) by (nonlinear_arith);
    }
    assert((i / width) * width == width * (i / width)) by (nonlinear_arith);
}

/// A width × height grid of solid/empty cells, indexed row by row.
/// Its dimensions are fixed when it is made: every constructor returns a map
/// whose model is `wf`, and no operation changes its width or height.
pub struct DensityMap {
    width: usize,
    height: usize,
    cells: Vec<bool>,
}

impl View for DensityMap {
    type V = Raster;

    closed spec fn view(&self) -> Raster {
        Raster { width: self.width as nat, height: self.height as nat, cells: self.cells@ }
    }
}

impl DensityMap {
    /// An all-empty map of the given size.
    pub fn new(width: usize, height: usize) -> (r: DensityMap)
        requires
            width * height <= usize::MAX,
        ensures
            r@.width == width,
            r@.height == height,
            r@.wf(),
            forall|i: int| 0 <= i < r@.cells.len() ==> !r@.cells[i],
    {
        let n: usize = width * height;
        let cells: Vec<bool> = vec![false; n];
        DensityMap { width, height, cells }
    }

    /// A map whose cells are given row by row.
    pub fn from_cells(width: usize, height: usize, cells: Vec<bool>) -> (r: Option<DensityMap>)
        ensures
            r is Some <==> cells@.len() == width * height,
            r matches Some(m) ==> m@ == (Raster {
                width: width as nat,
                height: height as nat,
                cells: cells@,
            }),
    {
        if width.checked_mul(height) == Some(cells.len()) {
            Some(DensityMap { width, height, cells })
        } else {
            None
        }
    }

    pub fn width(&self) -> (r: usize)
        ensures
            r == self@.width,
    {
        self.width
    }

    pub fn height(&self) -> (r: usize)
        ensures
            r == self@.height,
    {
        self.height
    }

    /// The cells, row by row.
    pub fn cells(&self) -> (r: &Vec<bool>)
        ensures
            r@ == self@.cells,
    {
        &self.cells
    }

    pub fn get_pixel(&self, x: usize, y: usize) -> (r: bool)
        requires
            self@.wf(),
            self@.in_bounds(x as int, y as int),
        ensures
            r == self@.solid(x as int, y as int),
    {
        let n: usize = self.cells.len();
        proof {
            lemma_cell_index(self.width as int, self.height as int, x as int, y as int);
            assert(y * self.width + x < n);
        }
        self.cells[y * self.width + x]
    }

    pub fn set_pixel(&mut self, x: usize, y: usize, v: bool)
        requires
            old(self)@.wf(),
            old(self)@.in_bounds(x as int, y as int),
        ensures
            final(self)@ == (Raster {
                cells: old(self)@.cells.update(y * old(self)@.width + x, v),
                ..old(self)@
            }),
    {
        let n: usize = self.cells.len();
        proof {
            lemma_cell_index(self.width as int, self.height as int, x as int, y as int);
            assert(y * self.width + x < n);
        }
        let i: usize = y * self.width + x;
        self.cells.set(i, v);
    }

    /// Whether the raster has at most `limit` boundary edges (see
    /// `boundary_edges`).
    pub fn boundary_at_most(&self, limit: u64) -> (r: bool)
        requires
            self@.wf(),
            limit <= u32::MAX,
        ensures
            r == (boundary_edges(self@) <= limit),
    {
        let n: usize = self.cells.len();
        let mut total: u64 = 0;
        let mut i: usize = 0;
        while i < n
            invariant
                self@.wf(),
                n == self@.cells.len(),
                i <= n,
                limit <= u32::MAX,
                total == boundary_upto(self@, i as nat),
                total <= limit,
            decreases n - i,
        {
            if self.cells[i] {
                proof {
                    lemma_index_cell(self.width as int, self.height as int, i as int);
                }
                let x: usize = i % self.width;
                let y: usize = i / self.width;
                let mut c: u64 = 0;
                if x == 0 || !self.get_pixel(x - 1, y) {
                    c = c + 1;
                }
                if x + 1 >= self.width || !self.get_pixel(x + 1, y) {
                    c = c + 1;
                }
                if y == 0 || !self.get_pixel(x, y - 1) {
                    c = c + 1;
                }
                if y + 1 >= self.height || !self.get_pixel(x, y + 1) {
                    c = c + 1;
                }
                total = total + c;
            }
            i = i + 1;
            if total > limit {
                proof {
                    lemma_boundary_monotone(self@, i as nat, n as nat);
                }
                return false;
            }
        }
        true
    }

    /// Number of solid cells.
    pub fn solid_count(&self) -> (r: usize)
        ensures
            r == count_true(self@.cells),
    {
        let mut n: usize = 0;
        let mut i: usize = 0;
        while i < self.cells.len()
            invariant
                i <= self.cells@.len(),
                n == count_true(self.cells@.take(i as int)),
                n <= i,
            decreases self.cells@.len() - i,
        {
            proof {
                assert(self.cells@.take(i as int + 1).drop_last() == self.cells@.take(i as int));
            }
            if self.cells[i] {
                n = n + 1;
            }
            i = i + 1;
        }
        proof {
            assert(self.cells@.take(i as int) == self.cells@);
        }
        n
    }
}

/// Number of `true` entries.
pub open spec fn count_true(s: Seq<bool>) -> nat
    decreases s.len(),
{
    if s.len() == 0 {
        0
    } else {
        count_true(s.drop_last()) + if s.last() {
            1nat
        } else {
            0nat
        }
    }
}

/// 1 when cell `(x, y)` is not solid (or lies outside the grid), else 0.
pub open spec fn open_side(r: Raster, x: int, y: int) -> nat {
    if r.solid(x, y) {
        0
    } else {
        1
    }
}

/// Number of sides of cell `i` that separate it, solid, from an empty cell
/// or from the outside of the grid.
pub open spec fn cell_boundary(r: Raster, i: int) -> nat {
    let x = i % (r.width as int);
    let y = i / (r.width as int);
    if r.cells[i] {
        open_side(r, x - 1, y) + open_side(r, x + 1, y) + open_side(r, x, y - 1) + open_side(r, x, y + 1)
    } else {
        0
    }
}

/// Boundary edges of the first `k` cells.
pub open spec fn boundary_upto(r: Raster, k: nat) -> nat
    decreases k,
{
    if k == 0 {
        0
    } else {
        boundary_upto(r, (k - 1) as nat) + cell_boundary(r, k - 1)
    }
}

/// Number of cell sides between a solid cell and an empty cell or the
/// outside: the length of all boundaries of the raster together.
pub open spec fn boundary_edges(r: Raster) -> nat {
    boundary_upto(r, r.cells.len())
}

proof fn lemma_boundary_monotone(r: Raster, j: nat, k: nat)
    requires
        j <= k,
    ensures
        boundary_upto(r, j) <= boundary_upto(r, k),
    decreases k - j,
{
    if j < k {
        lemma_boundary_monotone(r, j, (k - 1) as nat);
    }
}

/// Cells `a` and `b` share a side.
pub open spec fn side_by_side(a: (int, int), b: (int, int)) -> bool {
    (a.0 == b.0 && (a.1 + 1 == b.1 || b.1 + 1 == a.1)) || (a.1 == b.1 && (a.0 + 1 == b.0 || b.0 + 1
        == a.0))
}

/// `w` steps from solid cell to solid cell of `r`, each step to a cell that
/// shares a side with the previous one.
pub open spec fn solid_walk(r: Raster, w: Seq<(int, int)>) -> bool {
    &&& w.len() > 0
    &&& forall|i: int| 0 <= i < w.len() ==> r.solid((#[trigger] w[i]).0, w[i].1)
    &&& forall|i: int| 0 <= i < w.len() - 1 ==> side_by_side(#[trigger] w[i], w[i + 1])
}

/// The solid cells of `r` are 4-connected: any two are joined by a walk over
/// solid cells that share sides.
pub open spec fn solid_connected(r: Raster) -> bool {
    forall|a: (int, int), b: (int, int)|
        #[trigger] r.solid(a.0, a.1) && #[trigger] r.solid(b.0, b.1) ==> exists|w: Seq<(int, int)>|
            solid_walk(r, w) && w[0] == a && w.last() == b
}

} // verus!
