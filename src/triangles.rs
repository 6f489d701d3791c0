use vstd::prelude::*;

verus! {

/// Bound on every coordinate of polygon and triangle vertices; it keeps all
/// area computations inside `i128`.
pub const COORD_LIMIT: i64 = 0x10_0000_0000;

/// A point in world space (origin bottom-left, y up).
#[derive(Clone, Copy, Debug, PartialEq, Eq, Structural)]
pub struct Point {
    pub x: i64,
    pub y: i64,
}

/// Three corners of a triangle.
#[derive(Clone, Copy, Debug, PartialEq, Eq, Structural)]
pub struct Triangle {
    pub a: Point,
    pub b: Point,
    pub c: Point,
}

pub open spec fn point_bounded(p: Point) -> bool {
    -COORD_LIMIT <= p.x <= COORD_LIMIT && -COORD_LIMIT <= p.y <= COORD_LIMIT
}

pub open spec fn triangle_bounded(t: Triangle) -> bool {
    point_bounded(t.a) && point_bounded(t.b) && point_bounded(t.c)
}

/// Twice the signed area of `a b c`: positive when counter-clockwise.
pub open spec fn doubled_area(a: Point, b: Point, c: Point) -> int {
    (b.x - a.x) * (c.y - a.y) - (b.y - a.y) * (c.x - a.x)
}

/// A usable triangle: pairwise distinct corners, counter-clockwise, with
/// non-zero area.
pub open spec fn triangle_valid(t: Triangle) -> bool {
    &&& t.a != t.b
    &&& t.b != t.c
    &&& t.a != t.c
    &&& doubled_area(t.a, t.b, t.c) > 0
}

/// The triangle that the corner indices `i1 i2 i3` name in `vertices`, turned
/// counter-clockwise; none when an index is out of range or the corners are
/// collinear (which covers coincident corners).
pub open spec fn triangle_at(vertices: Seq<Point>, i1: int, i2: int, i3: int) -> Option<Triangle> {
    if !(0 <= i1 < vertices.len() && 0 <= i2 < vertices.len() && 0 <= i3 < vertices.len()) {
        None
    } else {
        let a = vertices[i1];
        let b = vertices[i2];
        let c = vertices[i3];
        let area = doubled_area(a, b, c);
        if area == 0 {
            None
        } else if area > 0 {
            Some(Triangle { a, b, c })
        } else {
            Some(Triangle { a, b: c, c: b })
        }
    }
}

/// Triangles named by the first `k` index triples.
pub open spec fn triangles_upto(vertices: Seq<Point>, indices: Seq<usize>, k: nat) -> Seq<Triangle>
    decreases k,
{
    if k == 0 {
        Seq::empty()
    } else {
        let prev = triangles_upto(vertices, indices, (k - 1) as nat);
        let j = 3 * (k - 1);
        match triangle_at(
            vertices,
            indices[j] as int,
            indices[j + 1] as int,
            indices[j + 2] as int,
        ) {
            Some(t) => prev.push(t),
            None => prev,
        }
    }
}

/// Triangles named by an index list, three indices per triangle; a trailing
/// incomplete triple is ignored.
pub open spec fn triangles_from(vertices: Seq<Point>, indices: Seq<usize>) -> Seq<Triangle> {
    triangles_upto(vertices, indices, indices.len() / 3)
}

proof fn lemma_product_bound(p: int, q: int)
    requires
        -0x20_0000_0000 <= p <= 0x20_0000_0000,
        -0x20_0000_0000 <= q <= 0x20_0000_0000,
    ensures
        -0x400_0000_0000_0000_0000 <= p * q <= 0x400_0000_0000_0000_0000,
{
    assert(-0x400_0000_0000_0000_0000 <= p * q <= 0x400_0000_0000_0000_0000) by (nonlinear_arith)
        requires
            -0x20_0000_0000 <= p <= 0x20_0000_0000,
            -0x20_0000_0000 <= q <= 0x20_0000_0000,
    ;
}

proof fn lemma_doubled_area_bounds(a: Point, b: Point, c: Point)
    requires
        point_bounded(a),
        point_bounded(b),
        point_bounded(c),
    ensures
        -0x400_0000_0000_0000_0000 <= (b.x - a.x) * (c.y - a.y) <= 0x400_0000_0000_0000_0000,
        -0x400_0000_0000_0000_0000 <= (b.y - a.y) * (c.x - a.x) <= 0x400_0000_0000_0000_0000,
{
    lemma_product_bound(b.x - a.x, c.y - a.y);
    lemma_product_bound(b.y - a.y, c.x - a.x);
}

/// Twice the signed area of `a b c`.
pub fn doubled_area_of(a: Point, b: Point, c: Point) -> (r: i128)
    requires
        point_bounded(a),
        point_bounded(b),
        point_bounded(c),
    ensures
        r == doubled_area(a, b, c),
{
    proof {
        lemma_doubled_area_bounds(a, b, c);
    }
    let p: i128 = (b.x - a.x) as i128 * (c.y - a.y) as i128;
    let q: i128 = (b.y - a.y) as i128 * (c.x - a.x) as i128;
    p - q
}

impl Triangle {
    /// Whether the triangle lies within the coordinate bound and is valid:
    /// distinct corners, counter-clockwise, non-zero area.
    pub fn is_valid(&self) -> (r: bool)
        ensures
            r == (triangle_bounded(*self) && triangle_valid(*self)),
    {
        let bounded = |p: Point| -> (b: bool)
            ensures
                b == point_bounded(p),
            { -COORD_LIMIT <= p.x && p.x <= COORD_LIMIT && -COORD_LIMIT <= p.y && p.y <= COORD_LIMIT };
        if !(bounded(self.a) && bounded(self.b) && bounded(self.c)) {
            return false;
        }
        proof {
            lemma_area_facts(self.a, self.b, self.c);
        }
        doubled_area_of(self.a, self.b, self.c) > 0
    }

    /// Twice the area of the triangle, signed by its winding.
    pub fn doubled_area(&self) -> (r: i128)
        requires
            triangle_bounded(*self),
        ensures
            r == doubled_area(self.a, self.b, self.c),
    {
        doubled_area_of(self.a, self.b, self.c)
    }
}

/// The triangle named by three corner indices, as `triangle_at` describes.
fn triangle_for(vertices: &Vec<Point>, i1: usize, i2: usize, i3: usize) -> (r: Option<Triangle>)
    requires
        forall|i: int| 0 <= i < vertices@.len() ==> point_bounded(#[trigger] vertices@[i]),
    ensures
        r == triangle_at(vertices@, i1 as int, i2 as int, i3 as int),
{
    let n: usize = vertices.len();
    if i1 >= n || i2 >= n || i3 >= n {
        return None;
    }
    let a: Point = vertices[i1];
    let b: Point = vertices[i2];
    let c: Point = vertices[i3];
    let area: i128 = doubled_area_of(a, b, c);
    if area == 0 {
        None
    } else if area > 0 {
        Some(Triangle { a, b, c })
    } else {
        Some(Triangle { a, b: c, c: b })
    }
}

pub(crate) proof fn lemma_area_facts(a: Point, b: Point, c: Point)
    ensures
        doubled_area(a, c, b) == -doubled_area(a, b, c),
        (a == b || b == c || a == c) ==> doubled_area(a, b, c) == 0,
{
    let (ax, ay, bx, by, cx, cy) = (a.x as int, a.y as int, b.x as int, b.y as int, c.x as int, c.y as int);
    assert((cx - ax) * (by - ay) - (cy - ay) * (bx - ax) == -((bx - ax) * (cy - ay) - (by - ay) * (cx
        - ax))) by (nonlinear_arith);
    assert(ax == bx && ay == by ==> (bx - ax) * (cy - ay) - (by - ay) * (cx - ax) == 0) by (nonlinear_arith);
    assert(cx == bx && cy == by ==> (bx - ax) * (cy - ay) - (by - ay) * (cx - ax) == 0) by (nonlinear_arith);
    assert(ax == cx && ay == cy ==> (bx - ax) * (cy - ay) - (by - ay) * (cx - ax) == 0) by (nonlinear_arith);
}

/// Every triangle named by an index list is valid and keeps the coordinate
/// bound of the vertices.
pub proof fn lemma_triangles_valid(vertices: Seq<Point>, indices: Seq<usize>, k: nat)
    requires
        forall|i: int| 0 <= i < vertices.len() ==> point_bounded(#[trigger] vertices[i]),
    ensures
        forall|i: int|
            0 <= i < triangles_upto(vertices, indices, k).len() ==> triangle_valid(
                #[trigger] triangles_upto(vertices, indices, k)[i],
            ) && triangle_bounded(triangles_upto(vertices, indices, k)[i]),
        triangles_upto(vertices, indices, k).len() <= k,
    decreases k,
{
    if k > 0 {
        lemma_triangles_valid(vertices, indices, (k - 1) as nat);
        let j = 3 * (k - 1);
        let i1 = indices[j] as int;
        let i2 = indices[j + 1] as int;
        let i3 = indices[j + 2] as int;
        if 0 <= i1 < vertices.len() && 0 <= i2 < vertices.len() && 0 <= i3 < vertices.len() {
            let a = vertices[i1];
            let b = vertices[i2];
            let c = vertices[i3];
            lemma_area_facts(a, b, c);
            lemma_area_facts(a, c, b);
        }
    }
}

/// Every corner of a triangle named by an index list is one of the vertices.
pub proof fn lemma_triangle_corners(vertices: Seq<Point>, indices: Seq<usize>, k: nat)
    ensures
        forall|i: int|
            0 <= i < triangles_upto(vertices, indices, k).len() ==> vertices.contains(
                (#[trigger] triangles_upto(vertices, indices, k)[i]).a,
            ) && vertices.contains(triangles_upto(vertices, indices, k)[i].b) && vertices.contains(
                triangles_upto(vertices, indices, k)[i].c,
            ),
    decreases k,
{
    if k > 0 {
        lemma_triangle_corners(vertices, indices, (k - 1) as nat);
        let prev = triangles_upto(vertices, indices, (k - 1) as nat);
        let cur = triangles_upto(vertices, indices, k);
        let j = 3 * (k - 1);
        let i1 = indices[j] as int;
        let i2 = indices[j + 1] as int;
        let i3 = indices[j + 2] as int;
        assert forall|i: int| 0 <= i < cur.len() implies vertices.contains((#[trigger] cur[i]).a)
            && vertices.contains(cur[i].b) && vertices.contains(cur[i].c) by {
            if i < prev.len() {
                assert(cur[i] == prev[i]);
            } else {
                assert(vertices[i1] == vertices[i1]);
                assert(vertices[i2] == vertices[i2]);
                assert(vertices[i3] == vertices[i3]);
                assert(cur[i] == triangle_at(vertices, i1, i2, i3).unwrap());
            }
        }
    }
}

/// Turns the corner-index list of an ear-clipping pass over `vertices` into
/// triangles: one per complete index triple whose indices are in range and
/// whose corners are not collinear, turned counter-clockwise. Degenerate
/// triples are dropped.
pub fn triangles_from_indices(vertices: &Vec<Point>, indices: &Vec<usize>) -> (r: Vec<Triangle>)
    requires
        forall|i: int| 0 <= i < vertices@.len() ==> point_bounded(#[trigger] vertices@[i]),
    ensures
        r@ == triangles_from(vertices@, indices@),
        forall|i: int| 0 <= i < r@.len() ==> triangle_valid(#[trigger] r@[i]),
        forall|i: int| 0 <= i < r@.len() ==> triangle_bounded(#[trigger] r@[i]),
        r@.len() <= indices@.len() / 3,
{
    let len: usize = indices.len();
    let count: usize = len / 3;
    let mut out: Vec<Triangle> = Vec::new();
    let mut k: usize = 0;
    while k < count
        invariant
            len == indices@.len(),
            count == len / 3,
            k <= count,
            forall|i: int| 0 <= i < vertices@.len() ==> point_bounded(#[trigger] vertices@[i]),
            out@ == triangles_upto(vertices@, indices@, k as nat),
        decreases count - k,
    {
        proof {
            vstd::arithmetic::div_mod::lemma_fundamental_div_mod(len as int, 3);
            assert(3 * k + 2 < len);
        }
        let j: usize = 3 * k;
        let t = triangle_for(vertices, indices[j], indices[j + 1], indices[j + 2]);
        match t {
            Some(t) => out.push(t),
            None => {},
        }
        k = k + 1;
    }
    proof {
        lemma_triangles_valid(vertices@, indices@, count as nat);
    }
    out
}

} // verus!
