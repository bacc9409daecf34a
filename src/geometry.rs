use vstd::prelude::*;

verus! {

/// A 2D vector with integer coordinates.
#[derive(Clone, Copy, Debug, PartialEq, Eq, Structural)]
pub struct Vec2 {
    pub x: i64,
    pub y: i64,
}

/// The cross (perp-dot) product of two vectors given by coordinates.
pub open spec fn cross_spec(ux: int, uy: int, vx: int, vy: int) -> int {
    ux * vy - uy * vx
}

/// The signed value of edge `a -> b` for query `p`: `(p - a) . perp(a - b)`,
/// where `perp` rotates a vector by 90 degrees.
pub open spec fn edge_side(a: Vec2, b: Vec2, p: Vec2) -> int {
    let (ex, ey) = (a.x - b.x, a.y - b.y);
    (p.x - a.x) * (-ey) + (p.y - a.y) * ex
}

/// `p` lies strictly inside the triangle `(a, b, c)`, for either orientation:
/// the three edge values all share one strict sign.
pub open spec fn in_triangle(a: Vec2, b: Vec2, c: Vec2, p: Vec2) -> bool {
    let s0 = edge_side(a, b, p);
    let s1 = edge_side(b, c, p);
    let s2 = edge_side(c, a, p);
    (s0 < 0 && s1 < 0 && s2 < 0) || (s0 > 0 && s1 > 0 && s2 > 0)
}

/// Twice the signed area of the corner at `b` between `a` and `c`:
/// `(a - b) x (c - b)`.
pub open spec fn corner(a: Vec2, b: Vec2, c: Vec2) -> int {
    cross_spec(a.x - b.x, a.y - b.y, c.x - b.x, c.y - b.y)
}

/// The absolute value of an integer.
pub open spec fn abs(v: int) -> int {
    if v < 0 { -v } else { v }
}

/// Both coordinates lie within `2^40` of the origin; the predicates below
/// are computed exactly in 128-bit arithmetic for such points.
pub open spec fn in_range(p: Vec2) -> bool {
    -0x100_0000_0000 <= p.x <= 0x100_0000_0000 && -0x100_0000_0000 <= p.y <= 0x100_0000_0000
}

/// Both coordinates lie within `2^62` of the origin.
pub open spec fn in_wide_range(p: Vec2) -> bool {
    -0x4000_0000_0000_0000 <= p.x <= 0x4000_0000_0000_0000 && -0x4000_0000_0000_0000 <= p.y
        <= 0x4000_0000_0000_0000
}

impl Vec2 {
    pub fn new(x: i64, y: i64) -> (r: Vec2)
        ensures
            r.x == x,
            r.y == y,
    {
        Vec2 { x, y }
    }

    /// The cross (perp-dot) product `self.x * rhs.y - self.y * rhs.x`.
    pub fn cross(self, rhs: Vec2) -> (r: i128)
        requires
            in_wide_range(self),
            in_wide_range(rhs),
        ensures
            r == cross_spec(self.x as int, self.y as int, rhs.x as int, rhs.y as int),
    {
        proof {
            lemma_wide_product(self.x as int, rhs.y as int);
            lemma_wide_product(self.y as int, rhs.x as int);
        }
        let a: i128 = self.x as i128 * rhs.y as i128;
        let b: i128 = self.y as i128 * rhs.x as i128;
        a - b
    }

    /// The vector rotated by 90 degrees: `(-y, x)`.
    pub fn perp(&self) -> (r: Vec2)
        requires
            self.y != i64::MIN,
        ensures
            r.x == -self.y,
            r.y == self.x,
    {
        Vec2 { x: -self.y, y: self.x }
    }

    /// The difference `self - rhs`, coordinate by coordinate.
    pub fn sub(self, rhs: Vec2) -> (r: Vec2)
        requires
            i64::MIN <= self.x - rhs.x <= i64::MAX,
            i64::MIN <= self.y - rhs.y <= i64::MAX,
        ensures
            r.x == self.x - rhs.x,
            r.y == self.y - rhs.y,
    {
        Vec2 { x: self.x - rhs.x, y: self.y - rhs.y }
    }

    /// The dot product `self.x * rhs.x + self.y * rhs.y`.
    pub fn dot(self, rhs: Vec2) -> (r: i128)
        requires
            in_wide_range(self),
            in_wide_range(rhs),
        ensures
            r == self.x * rhs.x + self.y * rhs.y,
    {
        proof {
            lemma_wide_product(self.x as int, rhs.x as int);
            lemma_wide_product(self.y as int, rhs.y as int);
        }
        let a: i128 = self.x as i128 * rhs.x as i128;
        let b: i128 = self.y as i128 * rhs.y as i128;
        a + b
    }
}

proof fn lemma_wide_product(u: int, v: int)
    requires
        -0x4000_0000_0000_0000 <= u <= 0x4000_0000_0000_0000,
        -0x4000_0000_0000_0000 <= v <= 0x4000_0000_0000_0000,
    ensures
        -0x1000_0000_0000_0000_0000_0000_0000_0000 <= u * v
            <= 0x1000_0000_0000_0000_0000_0000_0000_0000,
{
    assert(-0x1000_0000_0000_0000_0000_0000_0000_0000 <= u * v
        <= 0x1000_0000_0000_0000_0000_0000_0000_0000) by (nonlinear_arith)
        requires
            -0x4000_0000_0000_0000 <= u <= 0x4000_0000_0000_0000,
            -0x4000_0000_0000_0000 <= v <= 0x4000_0000_0000_0000,
    ;
}

proof fn lemma_product_bound(u: int, v: int)
    requires
        -0x200_0000_0000 <= u <= 0x200_0000_0000,
        -0x200_0000_0000 <= v <= 0x200_0000_0000,
    ensures
        -0x4_0000_0000_0000_0000_0000 <= u * v <= 0x4_0000_0000_0000_0000_0000,
{
    assert(-0x4_0000_0000_0000_0000_0000 <= u * v <= 0x4_0000_0000_0000_0000_0000)
        by (nonlinear_arith)
        requires
            -0x200_0000_0000 <= u <= 0x200_0000_0000,
            -0x200_0000_0000 <= v <= 0x200_0000_0000,
    ;
}

/// The sign of `edge_side(a, b, p)`.
fn edge_sign(a: Vec2, b: Vec2, p: Vec2) -> (r: i8)
    requires
        in_range(a),
        in_range(b),
        in_range(p),
    ensures
        r == 0 <==> edge_side(a, b, p) == 0,
        r < 0 <==> edge_side(a, b, p) < 0,
        r > 0 <==> edge_side(a, b, p) > 0,
{
    let ex: i128 = a.x as i128 - b.x as i128;
    let ey: i128 = a.y as i128 - b.y as i128;
    let dx: i128 = p.x as i128 - a.x as i128;
    let dy: i128 = p.y as i128 - a.y as i128;
    proof {
        lemma_product_bound(dx as int, ey as int);
        lemma_product_bound(dy as int, ex as int);
    }
    let s: i128 = dy * ex - dx * ey;
    assert(s == edge_side(a, b, p)) by (nonlinear_arith)
        requires
            s == dy * ex - dx * ey,
            ex == a.x - b.x,
            ey == a.y - b.y,
            dx == p.x - a.x,
            dy == p.y - a.y,
            edge_side(a, b, p) == (p.x - a.x) * (-(a.y - b.y)) + (p.y - a.y) * (a.x - b.x),
    ;
    if s < 0 {
        -1
    } else if s > 0 {
        1
    } else {
        0
    }
}

/// Whether `point` lies strictly inside `triangle`; points on an edge or a
/// corner count as outside. Works for either orientation of the triangle.
pub fn contains_triangle(triangle: (Vec2, Vec2, Vec2), point: Vec2) -> (r: bool)
    requires
        in_range(triangle.0),
        in_range(triangle.1),
        in_range(triangle.2),
        in_range(point),
    ensures
        r == in_triangle(triangle.0, triangle.1, triangle.2, point),
{
    let s0 = edge_sign(triangle.0, triangle.1, point);
    let s1 = edge_sign(triangle.1, triangle.2, point);
    let s2 = edge_sign(triangle.2, triangle.0, point);
    (s0 < 0 && s1 < 0 && s2 < 0) || (s0 > 0 && s1 > 0 && s2 > 0)
}

} // verus!
