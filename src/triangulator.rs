use vstd::prelude::*;

use crate::geometry::{abs, contains_triangle, corner, cross_spec, edge_side, in_triangle, Vec2};

verus! {

/// Position before `i` in a loop of `n` entries.
pub open spec fn prev_of(n: int, i: int) -> int {
    if i == 0 {
        n - 1
    } else {
        i - 1
    }
}

/// Position after `i` in a loop of `n` entries.
pub open spec fn next_of(n: int, i: int) -> int {
    if i + 1 == n {
        0
    } else {
        i + 1
    }
}

/// A pool point as a vector.
pub open spec fn pool_point(p: (i16, i16)) -> Vec2 {
    Vec2 { x: p.0 as i64, y: p.1 as i64 }
}

/// The points that a loop of pool indices visits, in loop order.
pub open spec fn loop_points(pool: Seq<(i16, i16)>, indices: Seq<usize>) -> Seq<Vec2> {
    Seq::new(indices.len(), |k: int| pool_point(pool[indices[k] as int]))
}

/// Every coordinate lies in the range of `i16`, widened by one.
pub open spec fn small_point(p: Vec2) -> bool {
    -0x8000 <= p.x <= 0x8000 && -0x8000 <= p.y <= 0x8000
}

pub open spec fn small_points(pts: Seq<Vec2>) -> bool {
    forall|k: int| 0 <= k < pts.len() ==> small_point(#[trigger] pts[k])
}

/// The cross product of `pts[j] - pts[0]` and `pts[j + 1] - pts[0]`.
pub open spec fn fan_term(pts: Seq<Vec2>, j: int) -> int {
    cross_spec(
        pts[j].x - pts[0].x,
        pts[j].y - pts[0].y,
        pts[j + 1].x - pts[0].x,
        pts[j + 1].y - pts[0].y,
    )
}

/// The sum of `fan_term(pts, j)` for `1 <= j < k`.
pub open spec fn fan(pts: Seq<Vec2>, k: int) -> int
    decreases k,
{
    if k <= 1 {
        0
    } else {
        fan(pts, k - 1) + fan_term(pts, k - 1)
    }
}

/// The signed winding of a loop: the cross products of consecutive edge
/// vectors taken from the first point, summed (twice the signed area).
pub open spec fn winding(pts: Seq<Vec2>) -> int {
    fan(pts, pts.len() - 1)
}

/// The corner triangle at position `i`: its previous point, itself, its next point.
pub open spec fn corner_at(pts: Seq<Vec2>, i: int) -> (Vec2, Vec2, Vec2) {
    let n = pts.len() as int;
    (pts[prev_of(n, i)], pts[i], pts[next_of(n, i)])
}

/// The corner at `i` turns against the winding sign (a convex corner) and no
/// point of the loop lies strictly inside its triangle.
pub open spec fn is_ear(pts: Seq<Vec2>, i: int, w: int) -> bool {
    let (a, b, c) = corner_at(pts, i);
    &&& corner(a, b, c) * w < 0
    &&& forall|j: int| 0 <= j < pts.len() ==> !in_triangle(a, b, c, #[trigger] pts[j])
}

/// The first ear at position `i` or later.
pub open spec fn ear_from(pts: Seq<Vec2>, w: int, i: int) -> Option<int>
    decreases pts.len() - i,
{
    if i < 0 || i >= pts.len() {
        None
    } else if is_ear(pts, i, w) {
        Some(i)
    } else {
        ear_from(pts, w, i + 1)
    }
}

/// The triangle of loop entries around position `i`.
pub open spec fn ear_triangle(indices: Seq<usize>, i: int) -> [usize; 3] {
    let n = indices.len() as int;
    [indices[prev_of(n, i)], indices[i], indices[next_of(n, i)]]
}

/// Ear clipping: repeatedly cut off the first ear, until fewer than three
/// points are left or no ear is found.
pub open spec fn clip(indices: Seq<usize>, pts: Seq<Vec2>, w: int) -> Seq<[usize; 3]>
    decreases pts.len(),
{
    if pts.len() < 3 {
        Seq::empty()
    } else {
        match ear_from(pts, w, 0) {
            Some(i) => if 0 <= i < pts.len() {
                seq![ear_triangle(indices, i)] + clip(indices.remove(i), pts.remove(i), w)
            } else {
                Seq::empty()
            },
            None => Seq::empty(),
        }
    }
}

/// The triangles of a loop of points, each given by its loop entries.
pub open spec fn triangulate_points(indices: Seq<usize>, pts: Seq<Vec2>) -> Seq<[usize; 3]> {
    if pts.len() < 3 {
        Seq::empty()
    } else {
        clip(indices, pts, winding(pts))
    }
}

/// The triangles of a loop of pool indices.
pub open spec fn triangulation(pool: Seq<(i16, i16)>, indices: Seq<usize>) -> Seq<[usize; 3]> {
    triangulate_points(indices, loop_points(pool, indices))
}

/// Every index of the loop names a point of the pool.
pub open spec fn indices_in_pool(pool_len: int, indices: Seq<usize>) -> bool {
    forall|k: int| 0 <= k < indices.len() ==> #[trigger] indices[k] < pool_len
}

/// Replaces `triangles` by the ear-clipping triangulation of the loop
/// `indices` over the point pool `vertices`. A loop of fewer than three
/// entries, or one in which no ear is left, yields fewer triangles.
pub fn triangulate(
    vertices: &Vec<(i16, i16)>,
    indices: &Vec<usize>,
    triangles: &mut Vec<[usize; 3]>,
)
    requires
        indices_in_pool(vertices@.len() as int, indices@),
    ensures
        final(triangles)@ == triangulation(vertices@, indices@),
{
    triangles.clear();
    let mut points: Vec<Vec2> = Vec::new();
    let n = indices.len();
    for k in 0..n
        invariant
            n == indices.len(),
            indices_in_pool(vertices@.len() as int, indices@),
            points@ =~= loop_points(vertices@, indices@).take(k as int),
    {
        let v = vertices[indices[k]];
        points.push(Vec2::new(v.0 as i64, v.1 as i64));
    }
    assert(points@ =~= loop_points(vertices@, indices@));
    assert(small_points(points@));
    let _ = triangulate_convex(&points, indices, triangles);
}

fn triangulate_convex(
    points: &Vec<Vec2>,
    indices: &Vec<usize>,
    triangles: &mut Vec<[usize; 3]>,
) -> (r: Option<()>)
    requires
        points.len() == indices.len(),
        small_points(points@),
    ensures
        final(triangles)@ == old(triangles)@ + triangulate_points(indices@, points@),
        r is Some <==> points.len() >= 3,
{
    if points.len() < 3 {
        return None;
    }
    let winding = match compute_winding(points) {
        Some(w) => w,
        None => {
            return None;
        },
    };
    let ghost start = triangles@;
    let ghost w = winding as int;
    let mut points_left = points.clone();
    let mut indices_left = indices.clone();
    assert(points_left@ =~= points@);
    assert(indices_left@ =~= indices@);
    while points_left.len() >= 3
        invariant
            points_left.len() == indices_left.len(),
            small_points(points_left@),
            w == winding,
            start + clip(indices@, points@, w) == triangles@ + clip(
                indices_left@,
                points_left@,
                w,
            ),
        ensures
            clip(indices_left@, points_left@, w) == Seq::<[usize; 3]>::empty(),
        decreases points_left.len(),
    {
        match find_ear(&points_left, winding) {
            Some(i) => {
                let (before, at, after) = get_triangle(&indices_left, i);
                assert(ear_triangle(indices_left@, i as int) == [before, at, after]);
                let ghost rest = clip(indices_left@.remove(i as int), points_left@.remove(i as int), w);
                assert(clip(indices_left@, points_left@, w) == seq![ear_triangle(indices_left@, i as int)] + rest);
                triangles.push([before, at, after]);
                points_left.remove(i);
                indices_left.remove(i);
                assert(triangles@ + rest =~= start + clip(indices@, points@, w));
            },
            None => {
                assert(clip(indices_left@, points_left@, w) == Seq::<[usize; 3]>::empty());
                break;
            },
        }
    }
    assert(triangles@ =~= start + clip(indices@, points@, w));
    Some(())
}

/// Twice the signed area of the loop, summed as a fan from the first point;
/// `None` for an empty loop.
fn compute_winding(points: &Vec<Vec2>) -> (r: Option<i128>)
    requires
        small_points(points@),
    ensures
        points.len() == 0 ==> r is None,
        points.len() > 0 ==> r == Some(winding(points@) as i128) && i128::MIN <= winding(
            points@,
        ) <= i128::MAX,
{
    let n = points.len();
    if n == 0 {
        return None;
    }
    let origin = points[0];
    let mut sum: i128 = 0;
    let mut k: usize = 1;
    while k < n - 1
        invariant
            1 <= k,
            n >= 1,
            k == 1 || k <= n - 1,
            n == points.len(),
            origin == points@[0],
            small_points(points@),
            sum == fan(points@, k as int),
            -(k as int) * 0x2_0000_0000 <= sum <= k * 0x2_0000_0000,
        decreases n - k,
    {
        let v1 = points[k].sub(origin);
        let v2 = points[k + 1].sub(origin);
        proof {
            lemma_small_cross(v1, v2);
        }
        let c = v1.cross(v2);
        sum = sum + c;
        k = k + 1;
    }
    assert(fan(points@, 0) == 0);
    assert(sum == winding(points@));
    Some(sum)
}

proof fn lemma_small_cross(u: Vec2, v: Vec2)
    requires
        -0x1_0000 <= u.x <= 0x1_0000,
        -0x1_0000 <= u.y <= 0x1_0000,
        -0x1_0000 <= v.x <= 0x1_0000,
        -0x1_0000 <= v.y <= 0x1_0000,
    ensures
        -0x2_0000_0000 <= cross_spec(u.x as int, u.y as int, v.x as int, v.y as int)
            <= 0x2_0000_0000,
{
    let (a, b, c, d) = (u.x as int, u.y as int, v.x as int, v.y as int);
    assert(-0x1_0000_0000 <= a * d <= 0x1_0000_0000) by (nonlinear_arith)
        requires
            -0x1_0000 <= a <= 0x1_0000,
            -0x1_0000 <= d <= 0x1_0000,
    ;
    assert(-0x1_0000_0000 <= b * c <= 0x1_0000_0000) by (nonlinear_arith)
        requires
            -0x1_0000 <= b <= 0x1_0000,
            -0x1_0000 <= c <= 0x1_0000,
    ;
}

proof fn lemma_sign_product(c: int, w: int)
    ensures
        (c * w < 0) <==> ((c < 0 && w > 0) || (c > 0 && w < 0)),
{
    if c < 0 && w > 0 {
        assert(c * w < 0) by (nonlinear_arith)
            requires
                c < 0 && w > 0,
        ;
    } else if c > 0 && w < 0 {
        assert(c * w < 0) by (nonlinear_arith)
            requires
                c > 0 && w < 0,
        ;
    } else {
        assert(c * w >= 0) by (nonlinear_arith)
            requires
                !((c < 0 && w > 0) || (c > 0 && w < 0)),
        ;
    }
}

/// Whether the corner at position `i` is an ear of the loop.
fn ear_at(points: &Vec<Vec2>, i: usize, winding: i128) -> (r: bool)
    requires
        points.len() >= 3,
        i < points.len(),
        small_points(points@),
    ensures
        r == is_ear(points@, i as int, winding as int),
{
    let triangle = get_triangle(points, i);
    let s1 = triangle.0.sub(triangle.1);
    let s2 = triangle.2.sub(triangle.1);
    proof {
        lemma_small_cross(s1, s2);
        lemma_sign_product(corner(triangle.0, triangle.1, triangle.2), winding as int);
    }
    let cross = s1.cross(s2);
    if !((cross < 0 && winding > 0) || (cross > 0 && winding < 0)) {
        return false;
    }
    let n = points.len();
    for j in 0..n
        invariant
            n == points.len(),
            n >= 3,
            i < n,
            small_points(points@),
            triangle == corner_at(points@, i as int),
            forall|jj: int|
                0 <= jj < j ==> !in_triangle(triangle.0, triangle.1, triangle.2, #[trigger] points@[jj]),
    {
        if contains_triangle(triangle, points[j]) {
            return false;
        }
    }
    true
}

proof fn lemma_ear_from_skip(pts: Seq<Vec2>, w: int, i: int)
    requires
        0 <= i <= pts.len(),
        forall|k: int| 0 <= k < i ==> !is_ear(pts, k, w),
    ensures
        ear_from(pts, w, 0) == ear_from(pts, w, i),
    decreases i,
{
    if i > 0 {
        lemma_ear_from_skip(pts, w, i - 1);
    }
}

/// The first position whose corner is an ear.
fn find_ear(points: &Vec<Vec2>, winding: i128) -> (r: Option<usize>)
    requires
        points.len() >= 3,
        small_points(points@),
    ensures
        r is None ==> ear_from(points@, winding as int, 0) is None,
        r matches Some(i) ==> ear_from(points@, winding as int, 0) == Some(i as int) && i
            < points.len(),
{
    let n = points.len();
    let mut i: usize = 0;
    while i < n
        invariant
            n == points.len(),
            n >= 3,
            i <= n,
            small_points(points@),
            forall|k: int| 0 <= k < i ==> !is_ear(points@, k, winding as int),
        decreases n - i,
    {
        if ear_at(points, i, winding) {
            proof {
                lemma_ear_from_skip(points@, winding as int, i as int);
            }
            return Some(i);
        }
        i = i + 1;
    }
    proof {
        lemma_ear_from_skip(points@, winding as int, n as int);
    }
    None
}

/// The entries before, at and after position `i` of a loop.
pub fn get_triangle<T: Copy>(vertices: &Vec<T>, i: usize) -> (r: (T, T, T))
    requires
        i < vertices.len(),
    ensures
        r == (
            vertices@[prev_of(vertices.len() as int, i as int)],
            vertices@[i as int],
            vertices@[next_of(vertices.len() as int, i as int)],
        ),
{
    let length = vertices.len();
    let before = if i == 0 {
        length - 1
    } else {
        i - 1
    };
    let after = if i + 1 == length {
        0
    } else {
        i + 1
    };
    (vertices[before], vertices[i], vertices[after])
}

/// Every entry of every triangle is below `bound`.
pub open spec fn entries_below(tris: Seq<[usize; 3]>, bound: int) -> bool {
    forall|t: int, c: int| 0 <= t < tris.len() && 0 <= c < 3 ==> #[trigger] tris[t][c] < bound
}

proof fn lemma_clip_entries(indices: Seq<usize>, pts: Seq<Vec2>, w: int, bound: int)
    requires
        indices.len() == pts.len(),
        indices_in_pool(bound, indices),
    ensures
        entries_below(clip(indices, pts, w), bound),
    decreases pts.len(),
{
    if pts.len() >= 3 {
        if let Some(i) = ear_from(pts, w, 0) {
            if 0 <= i < pts.len() {
                let rest_idx = indices.remove(i);
                assert(indices_in_pool(bound, rest_idx)) by {
                    assert forall|k: int| 0 <= k < rest_idx.len() implies #[trigger] rest_idx[k] < bound by {
                        if k < i {
                            assert(rest_idx[k] == indices[k]);
                        } else {
                            assert(rest_idx[k] == indices[k + 1]);
                        }
                    }
                }
                lemma_clip_entries(rest_idx, pts.remove(i), w, bound);
                let n = indices.len() as int;
                let t = ear_triangle(indices, i);
                assert(indices[prev_of(n, i)] < bound);
                assert(indices[i] < bound);
                assert(indices[next_of(n, i)] < bound);
                let all = clip(indices, pts, w);
                assert(all == seq![t] + clip(rest_idx, pts.remove(i), w));
                assert forall|u: int, c: int| 0 <= u < all.len() && 0 <= c < 3 implies #[trigger] all[u][c]
                    < bound by {
                    if u > 0 {
                        assert(all[u] == clip(rest_idx, pts.remove(i), w)[u - 1]);
                    } else {
                        assert(all[u] == t);
                        assert(t[0] == indices[prev_of(n, i)]);
                        assert(t[1] == indices[i]);
                        assert(t[2] == indices[next_of(n, i)]);
                    }
                }
            }
        }
    }
}

/// Every triangle of a loop that lies in the pool names pool points only.
pub proof fn lemma_triangulation_in_pool(pool: Seq<(i16, i16)>, indices: Seq<usize>)
    requires
        indices_in_pool(pool.len() as int, indices),
    ensures
        entries_below(triangulation(pool, indices), pool.len() as int),
{
    let pts = loop_points(pool, indices);
    if pts.len() >= 3 {
        lemma_clip_entries(indices, pts, winding(pts), pool.len() as int);
    }
}

/// The loop points are the pool points that the loop's indices name.
pub open spec fn points_match(pool: Seq<(i16, i16)>, indices: Seq<usize>, pts: Seq<Vec2>) -> bool {
    &&& indices.len() == pts.len()
    &&& forall|k: int| 0 <= k < pts.len() ==> #[trigger] pts[k] == pool_point(pool[indices[k] as int])
}

/// The pool points of a triangle of pool indices.
pub open spec fn triangle_points(pool: Seq<(i16, i16)>, t: [usize; 3]) -> (Vec2, Vec2, Vec2) {
    (pool_point(pool[t[0] as int]), pool_point(pool[t[1] as int]), pool_point(pool[t[2] as int]))
}

proof fn lemma_remove_keeps_match(
    pool: Seq<(i16, i16)>,
    indices: Seq<usize>,
    pts: Seq<Vec2>,
    i: int,
)
    requires
        points_match(pool, indices, pts),
        0 <= i < pts.len(),
    ensures
        points_match(pool, indices.remove(i), pts.remove(i)),
{
    let (a, b) = (indices.remove(i), pts.remove(i));
    assert forall|k: int| 0 <= k < b.len() implies #[trigger] b[k] == pool_point(pool[a[k] as int]) by {
        if k < i {
            assert(b[k] == pts[k] && a[k] == indices[k]);
        } else {
            assert(b[k] == pts[k + 1] && a[k] == indices[k + 1]);
        }
    }
}

proof fn lemma_clip_oriented(pool: Seq<(i16, i16)>, indices: Seq<usize>, pts: Seq<Vec2>, w: int)
    requires
        points_match(pool, indices, pts),
    ensures
        forall|t: int|
            0 <= t < clip(indices, pts, w).len() ==> {
                let (a, b, c) = triangle_points(pool, #[trigger] clip(indices, pts, w)[t]);
                corner(a, b, c) * w < 0
            },
    decreases pts.len(),
{
    if pts.len() >= 3 {
        if let Some(i) = ear_from(pts, w, 0) {
            if 0 <= i < pts.len() {
                lemma_ear_from_is_ear(pts, w, 0);
                lemma_remove_keeps_match(pool, indices, pts, i);
                lemma_clip_oriented(pool, indices.remove(i), pts.remove(i), w);
                let n = pts.len() as int;
                let rest = clip(indices.remove(i), pts.remove(i), w);
                let all = clip(indices, pts, w);
                assert(all == seq![ear_triangle(indices, i)] + rest);
                assert(pts[prev_of(n, i)] == pool_point(pool[indices[prev_of(n, i)] as int]));
                assert(pts[i] == pool_point(pool[indices[i] as int]));
                assert(pts[next_of(n, i)] == pool_point(pool[indices[next_of(n, i)] as int]));
                assert forall|t: int| 0 <= t < all.len() implies {
                    let (a, b, c) = triangle_points(pool, #[trigger] all[t]);
                    corner(a, b, c) * w < 0
                } by {
                    if t > 0 {
                        assert(all[t] == rest[t - 1]);
                    }
                }
            }
        }
    }
}

proof fn lemma_ear_from_is_ear(pts: Seq<Vec2>, w: int, i: int)
    requires
        ear_from(pts, w, i) is Some,
    ensures
        ({
            let j = ear_from(pts, w, i)->0;
            i <= j < pts.len() && is_ear(pts, j, w)
        }),
    decreases pts.len() - i,
{
    if 0 <= i < pts.len() && !is_ear(pts, i, w) {
        lemma_ear_from_is_ear(pts, w, i + 1);
    }
}

/// No triangle of a triangulation is degenerate: each one turns the same way
/// as the whole loop, so its doubled area `|corner|` is positive.
pub proof fn lemma_triangles_nondegenerate(pool: Seq<(i16, i16)>, indices: Seq<usize>)
    requires
        indices_in_pool(pool.len() as int, indices),
    ensures
        forall|t: int|
            0 <= t < triangulation(pool, indices).len() ==> {
                let (a, b, c) = triangle_points(pool, #[trigger] triangulation(pool, indices)[t]);
                &&& corner(a, b, c) * winding(loop_points(pool, indices)) < 0
                &&& corner(a, b, c) != 0
            },
{
    let pts = loop_points(pool, indices);
    if pts.len() >= 3 {
        let w = winding(pts);
        lemma_clip_oriented(pool, indices, pts, w);
        assert forall|t: int| 0 <= t < triangulation(pool, indices).len() implies {
            let (a, b, c) = triangle_points(pool, #[trigger] triangulation(pool, indices)[t]);
            corner(a, b, c) != 0
        } by {
            let (a, b, c) = triangle_points(pool, triangulation(pool, indices)[t]);
            if corner(a, b, c) == 0 {
                assert(corner(a, b, c) * w == 0);
            }
        }
    }
}

/// `q` is `p` moved by `(dx, dy)`.
pub open spec fn translated(p: Seq<Vec2>, q: Seq<Vec2>, dx: int, dy: int) -> bool {
    &&& p.len() == q.len()
    &&& forall|k: int| 0 <= k < p.len() ==> (#[trigger] q[k]).x == p[k].x + dx && q[k].y == p[k].y + dy
}

proof fn lemma_fan_translated(p: Seq<Vec2>, q: Seq<Vec2>, dx: int, dy: int, k: int)
    requires
        translated(p, q, dx, dy),
        k < p.len(),
    ensures
        fan(q, k) == fan(p, k),
    decreases k,
{
    if k > 1 {
        lemma_fan_translated(p, q, dx, dy, k - 1);
        assert(q[k - 1].x - q[0].x == p[k - 1].x - p[0].x);
        assert(q[k - 1].y - q[0].y == p[k - 1].y - p[0].y);
        assert(q[k].x - q[0].x == p[k].x - p[0].x);
        assert(q[k].y - q[0].y == p[k].y - p[0].y);
    }
}

proof fn lemma_ear_translated(p: Seq<Vec2>, q: Seq<Vec2>, dx: int, dy: int, w: int, i: int)
    requires
        translated(p, q, dx, dy),
        0 <= i < p.len(),
    ensures
        is_ear(q, i, w) == is_ear(p, i, w),
{
    let n = p.len() as int;
    let (a, b, c) = corner_at(p, i);
    let (a2, b2, c2) = corner_at(q, i);
    assert(a2.x == a.x + dx && a2.y == a.y + dy);
    assert(b2.x == b.x + dx && b2.y == b.y + dy);
    assert(c2.x == c.x + dx && c2.y == c.y + dy);
    assert(corner(a2, b2, c2) == corner(a, b, c));
    assert forall|j: int| 0 <= j < n implies in_triangle(a2, b2, c2, #[trigger] q[j]) == in_triangle(
        a,
        b,
        c,
        p[j],
    ) by {
        assert(q[j].x == p[j].x + dx && q[j].y == p[j].y + dy);
    }
    if is_ear(p, i, w) {
        assert forall|j: int| 0 <= j < n implies !in_triangle(a2, b2, c2, #[trigger] q[j]) by {
            assert(!in_triangle(a, b, c, p[j]));
        }
    }
    if is_ear(q, i, w) {
        assert forall|j: int| 0 <= j < n implies !in_triangle(a, b, c, #[trigger] p[j]) by {
            assert(!in_triangle(a2, b2, c2, q[j]));
        }
    }
}

proof fn lemma_ear_from_translated(p: Seq<Vec2>, q: Seq<Vec2>, dx: int, dy: int, w: int, i: int)
    requires
        translated(p, q, dx, dy),
    ensures
        ear_from(q, w, i) == ear_from(p, w, i),
    decreases p.len() - i,
{
    if 0 <= i < p.len() {
        lemma_ear_translated(p, q, dx, dy, w, i);
        lemma_ear_from_translated(p, q, dx, dy, w, i + 1);
    }
}

/// Clipping ears from a moved loop cuts as many triangles, whatever
/// entries stand for the points.
proof fn lemma_clip_translated(
    ip: Seq<usize>,
    p: Seq<Vec2>,
    iq: Seq<usize>,
    q: Seq<Vec2>,
    dx: int,
    dy: int,
    w: int,
)
    requires
        translated(p, q, dx, dy),
    ensures
        clip(iq, q, w).len() == clip(ip, p, w).len(),
    decreases p.len(),
{
    if p.len() >= 3 {
        lemma_ear_from_translated(p, q, dx, dy, w, 0);
        if let Some(i) = ear_from(p, w, 0) {
            if 0 <= i < p.len() {
                let (p_rest, q_rest) = (p.remove(i), q.remove(i));
                assert(translated(p_rest, q_rest, dx, dy)) by {
                    assert forall|k: int| 0 <= k < p_rest.len() implies (#[trigger] q_rest[k]).x == p_rest[k].x
                        + dx && q_rest[k].y == p_rest[k].y + dy by {
                        if k < i {
                            assert(q_rest[k] == q[k] && p_rest[k] == p[k]);
                        } else {
                            assert(q_rest[k] == q[k + 1] && p_rest[k] == p[k + 1]);
                        }
                    }
                }
                lemma_clip_translated(ip.remove(i), p_rest, iq.remove(i), q_rest, dx, dy, w);
            }
        }
    }
}

/// Triangulating a moved loop gives as many triangles as the loop itself,
/// whatever entries stand for the points.
pub proof fn lemma_triangulate_translated(
    ip: Seq<usize>,
    p: Seq<Vec2>,
    iq: Seq<usize>,
    q: Seq<Vec2>,
    dx: int,
    dy: int,
)
    requires
        translated(p, q, dx, dy),
    ensures
        triangulate_points(iq, q).len() == triangulate_points(ip, p).len(),
{
    if p.len() >= 3 {
        lemma_fan_translated(p, q, dx, dy, p.len() - 1);
        lemma_clip_translated(ip, p, iq, q, dx, dy, winding(p));
    }
}

/// The cross product of two points taken as position vectors.
pub open spec fn pcross(a: Vec2, b: Vec2) -> int {
    a.x * b.y - a.y * b.x
}

/// The sum of `pcross(p[k], p[k + 1])` for `lo <= k < hi`.
pub open spec fn chain(p: Seq<Vec2>, lo: int, hi: int) -> int
    decreases hi - lo,
{
    if hi <= lo {
        0
    } else {
        chain(p, lo, hi - 1) + pcross(p[hi - 1], p[hi])
    }
}

/// Twice the signed area of a closed loop, by the shoelace formula.
pub open spec fn shoelace(p: Seq<Vec2>) -> int {
    if p.len() == 0 {
        0
    } else {
        chain(p, 0, p.len() - 1) + pcross(p[p.len() - 1], p[0])
    }
}

proof fn lemma_chain_split(p: Seq<Vec2>, lo: int, m: int, hi: int)
    requires
        lo <= m <= hi,
    ensures
        chain(p, lo, hi) == chain(p, lo, m) + chain(p, m, hi),
    decreases hi - m,
{
    if hi > m {
        lemma_chain_split(p, lo, m, hi - 1);
    }
}

proof fn lemma_chain_shift(p: Seq<Vec2>, q: Seq<Vec2>, lo: int, hi: int, d: int)
    requires
        forall|k: int| lo <= k <= hi ==> #[trigger] q[k] == p[k + d],
    ensures
        chain(q, lo, hi) == chain(p, lo + d, hi + d),
    decreases hi - lo,
{
    if hi > lo {
        lemma_chain_shift(p, q, lo, hi - 1, d);
        assert(q[hi - 1] == p[hi - 1 + d]);
        assert(q[hi] == p[hi + d]);
    }
}

proof fn lemma_corner_identity(a: Vec2, b: Vec2, c: Vec2)
    ensures
        pcross(a, b) + pcross(b, c) - pcross(a, c) == -corner(a, b, c),
{
    assert(pcross(a, b) + pcross(b, c) - pcross(a, c) == -corner(a, b, c)) by (nonlinear_arith);
}

proof fn lemma_fan_term_identity(p: Seq<Vec2>, j: int)
    ensures
        fan_term(p, j) == pcross(p[j], p[j + 1]) + pcross(p[0], p[j]) - pcross(p[0], p[j + 1]),
{
    let (a, b, o) = (p[j], p[j + 1], p[0]);
    lemma_shifted_cross(a.x as int, a.y as int, b.x as int, b.y as int, o.x as int, o.y as int);
}

proof fn lemma_shifted_cross(ax: int, ay: int, bx: int, by: int, ox: int, oy: int)
    ensures
        (ax - ox) * (by - oy) - (ay - oy) * (bx - ox) == (ax * by - ay * bx) + (ox * ay - oy * ax)
            - (ox * by - oy * bx),
{
    assert((ax - ox) * (by - oy) == ax * by - ax * oy - ox * by + ox * oy) by (nonlinear_arith);
    assert((ay - oy) * (bx - ox) == ay * bx - ay * ox - oy * bx + oy * ox) by (nonlinear_arith);
    assert(ox * ay == ay * ox && oy * ax == ax * oy && ox * oy == oy * ox) by (nonlinear_arith);
}

proof fn lemma_chain_one(p: Seq<Vec2>, lo: int)
    ensures
        chain(p, lo, lo + 1) == pcross(p[lo], p[lo + 1]),
{
    assert(chain(p, lo, lo) == 0);
}

proof fn lemma_fan_chain(p: Seq<Vec2>, k: int)
    requires
        1 <= k < p.len(),
    ensures
        fan(p, k) == chain(p, 1, k) + pcross(p[0], p[1]) - pcross(p[0], p[k]),
    decreases k,
{
    if k > 1 {
        lemma_fan_chain(p, k - 1);
        lemma_fan_term_identity(p, k - 1);
    }
}

/// The winding that the triangulator computes is the shoelace area.
pub proof fn lemma_winding_is_shoelace(p: Seq<Vec2>)
    requires
        p.len() >= 2,
    ensures
        winding(p) == shoelace(p),
{
    let n = p.len() as int;
    lemma_fan_chain(p, n - 1);
    lemma_chain_split(p, 0, 1, n - 1);
    lemma_chain_one(p, 0);
    assert(-pcross(p[0], p[n - 1]) == pcross(p[n - 1], p[0])) by (nonlinear_arith);
}

/// Cutting the corner at `i` off a loop takes that corner's signed area,
/// `-corner`, off the shoelace area.
proof fn lemma_shoelace_remove(p: Seq<Vec2>, i: int)
    requires
        p.len() >= 3,
        0 <= i < p.len(),
    ensures
        ({
            let (a, b, c) = corner_at(p, i);
            shoelace(p) == shoelace(p.remove(i)) - corner(a, b, c)
        }),
{
    let n = p.len() as int;
    let r = p.remove(i);
    let (a, b, c) = corner_at(p, i);
    lemma_corner_identity(a, b, c);
    if i == 0 {
        lemma_chain_split(p, 0, 1, n - 1);
        lemma_chain_shift(p, r, 0, n - 2, 1);
        lemma_chain_one(p, 0);
    } else if i == n - 1 {
        lemma_chain_split(p, 0, n - 2, n - 1);
        lemma_chain_shift(p, r, 0, n - 2, 0);
        lemma_chain_one(p, n - 2);
    } else {
        lemma_chain_split(p, 0, i - 1, n - 1);
        lemma_chain_split(p, i - 1, i + 1, n - 1);
        lemma_chain_split(p, i - 1, i, i + 1);
        lemma_chain_one(p, i - 1);
        lemma_chain_one(p, i);
        lemma_chain_split(r, 0, i - 1, n - 2);
        lemma_chain_split(r, i - 1, i, n - 2);
        lemma_chain_one(r, i - 1);
        lemma_chain_shift(p, r, 0, i - 1, 0);
        lemma_chain_shift(p, r, i, n - 2, 1);
    }
}

/// The signed doubled areas `-corner` of the triangles, summed.
pub open spec fn signed_area_sum(pool: Seq<(i16, i16)>, tris: Seq<[usize; 3]>) -> int
    decreases tris.len(),
{
    if tris.len() == 0 {
        0
    } else {
        let (a, b, c) = triangle_points(pool, tris[0]);
        -corner(a, b, c) + signed_area_sum(pool, tris.subrange(1, tris.len() as int))
    }
}

/// The doubled areas `|corner|` of the triangles, summed.
pub open spec fn doubled_area_sum(pool: Seq<(i16, i16)>, tris: Seq<[usize; 3]>) -> int
    decreases tris.len(),
{
    if tris.len() == 0 {
        0
    } else {
        let (a, b, c) = triangle_points(pool, tris[0]);
        abs(corner(a, b, c)) + doubled_area_sum(pool, tris.subrange(1, tris.len() as int))
    }
}

proof fn lemma_clip_area(pool: Seq<(i16, i16)>, indices: Seq<usize>, pts: Seq<Vec2>, w: int)
    requires
        points_match(pool, indices, pts),
        pts.len() >= 2,
        clip(indices, pts, w).len() == pts.len() - 2,
    ensures
        signed_area_sum(pool, clip(indices, pts, w)) == shoelace(pts),
        w > 0 ==> doubled_area_sum(pool, clip(indices, pts, w)) == shoelace(pts),
        w < 0 ==> doubled_area_sum(pool, clip(indices, pts, w)) == -shoelace(pts),
    decreases pts.len(),
{
    let n = pts.len() as int;
    if n == 2 {
        lemma_chain_one(pts, 0);
        assert(pcross(pts[0], pts[1]) + pcross(pts[1], pts[0]) == 0) by (nonlinear_arith);
    } else {
        let i = ear_from(pts, w, 0)->0;
        lemma_ear_from_is_ear(pts, w, 0);
        lemma_remove_keeps_match(pool, indices, pts, i);
        let all = clip(indices, pts, w);
        let rest = clip(indices.remove(i), pts.remove(i), w);
        assert(all == seq![ear_triangle(indices, i)] + rest);
        assert(all.subrange(1, all.len() as int) =~= rest);
        lemma_clip_area(pool, indices.remove(i), pts.remove(i), w);
        lemma_shoelace_remove(pts, i);
        assert(pts[prev_of(n, i)] == pool_point(pool[indices[prev_of(n, i)] as int]));
        assert(pts[i] == pool_point(pool[indices[i] as int]));
        assert(pts[next_of(n, i)] == pool_point(pool[indices[next_of(n, i)] as int]));
        let (a, b, c) = corner_at(pts, i);
        assert(triangle_points(pool, all[0]) == (a, b, c));
        lemma_sign_product(corner(a, b, c), w);
    }
}

/// When the triangulation of a loop of `n >= 3` points is complete, with
/// `n - 2` triangles, their doubled areas add up to the absolute doubled
/// shoelace area of the loop.
pub proof fn lemma_complete_triangulation_area(pool: Seq<(i16, i16)>, indices: Seq<usize>)
    requires
        indices_in_pool(pool.len() as int, indices),
        indices.len() >= 3,
        triangulation(pool, indices).len() == indices.len() - 2,
    ensures
        doubled_area_sum(pool, triangulation(pool, indices)) == abs(
            shoelace(loop_points(pool, indices)),
        ),
{
    let pts = loop_points(pool, indices);
    let w = winding(pts);
    lemma_winding_is_shoelace(pts);
    assert(points_match(pool, indices, pts));
    if w == 0 {
        assert(ear_from(pts, w, 0) is None) by {
            if ear_from(pts, w, 0) is Some {
                lemma_ear_from_is_ear(pts, w, 0);
            }
        }
    } else {
        lemma_clip_area(pool, indices, pts, w);
    }
}

proof fn lemma_clip_count(indices: Seq<usize>, pts: Seq<Vec2>, w: int)
    requires
        pts.len() >= 2,
    ensures
        clip(indices, pts, w).len() <= pts.len() - 2,
    decreases pts.len(),
{
    if pts.len() >= 3 {
        if let Some(i) = ear_from(pts, w, 0) {
            if 0 <= i < pts.len() {
                lemma_clip_count(indices.remove(i), pts.remove(i), w);
            }
        }
    }
}

/// A loop of `n >= 2` entries never gives more than `n - 2` triangles.
pub proof fn lemma_triangle_count_bound(pool: Seq<(i16, i16)>, indices: Seq<usize>)
    requires
        indices.len() >= 2,
    ensures
        triangulation(pool, indices).len() <= indices.len() - 2,
{
    let pts = loop_points(pool, indices);
    if pts.len() >= 3 {
        lemma_clip_count(indices, pts, winding(pts));
    }
}

/// Twice the signed area of the triangle `(a, b, c)`: `(b - a) x (c - a)`;
/// positive when it turns counter-clockwise.
pub open spec fn orient(a: Vec2, b: Vec2, c: Vec2) -> int {
    cross_spec(b.x - a.x, b.y - a.y, c.x - a.x, c.y - a.y)
}

/// Every three points of the loop, taken in loop order, turn the same way:
/// counter-clockwise when `ccw`, clockwise otherwise. This is a strictly
/// convex polygon.
pub open spec fn convex_loop(pts: Seq<Vec2>, ccw: bool) -> bool {
    forall|j: int, k: int, l: int|
        0 <= j < k < l < pts.len() ==> if ccw {
            #[trigger] orient(pts[j], pts[k], pts[l]) > 0
        } else {
            orient(pts[j], pts[k], pts[l]) < 0
        }
}

proof fn lemma_orient_identities(a: Vec2, b: Vec2, c: Vec2)
    ensures
        orient(a, b, c) == orient(b, c, a),
        orient(a, b, c) == -orient(a, c, b),
        corner(a, b, c) == -orient(a, b, c),
        edge_side(a, b, c) == -orient(a, b, c),
{
    let (ax, ay, bx, by, cx, cy) = (a.x as int, a.y as int, b.x as int, b.y as int, c.x as int, c.y as int);
    assert((bx - ax) * (cy - ay) - (by - ay) * (cx - ax) == (cx - bx) * (ay - by) - (cy - by) * (ax
        - bx)) by (nonlinear_arith);
    assert((bx - ax) * (cy - ay) - (by - ay) * (cx - ax) == -((cx - ax) * (by - ay) - (cy - ay) * (
    bx - ax))) by (nonlinear_arith);
    assert((ax - bx) * (cy - by) - (ay - by) * (cx - bx) == -((bx - ax) * (cy - ay) - (by - ay) * (
    cx - ax))) by (nonlinear_arith);
    assert((cx - ax) * (-(ay - by)) + (cy - ay) * (ax - bx) == -((bx - ax) * (cy - ay) - (by - ay)
        * (cx - ax))) by (nonlinear_arith);
}

proof fn lemma_convex_fan_sign(pts: Seq<Vec2>, ccw: bool, k: int)
    requires
        convex_loop(pts, ccw),
        2 <= k < pts.len(),
    ensures
        ccw ==> fan(pts, k) > 0,
        !ccw ==> fan(pts, k) < 0,
    decreases k,
{
    assert(fan_term(pts, k - 1) == orient(pts[0], pts[k - 1], pts[k]));
    if k > 2 {
        lemma_convex_fan_sign(pts, ccw, k - 1);
    } else {
        assert(fan(pts, 1) == 0);
    }
}

proof fn lemma_convex_first_is_ear(pts: Seq<Vec2>, ccw: bool, w: int)
    requires
        convex_loop(pts, ccw),
        pts.len() >= 3,
        ccw ==> w > 0,
        !ccw ==> w < 0,
    ensures
        is_ear(pts, 0, w),
{
    let n = pts.len() as int;
    let (a, b, c) = corner_at(pts, 0);
    assert(a == pts[n - 1] && b == pts[0] && c == pts[1]);
    lemma_orient_identities(a, b, c);
    lemma_orient_identities(b, c, a);
    assert(orient(pts[0], pts[1], pts[n - 1]) == orient(b, c, a));
    lemma_sign_product(corner(a, b, c), w);
    assert forall|m: int| 0 <= m < n implies !in_triangle(a, b, c, #[trigger] pts[m]) by {
        let q = pts[m];
        if m == 0 || m == 1 || m == n - 1 {
            assert(edge_side(a, b, a) == 0);
            assert(edge_side(b, c, b) == 0);
            assert(edge_side(c, a, c) == 0);
        } else {
            lemma_orient_identities(a, b, q);
            lemma_orient_identities(b, c, q);
            lemma_orient_identities(c, a, q);
            lemma_orient_identities(b, q, a);
            lemma_orient_identities(c, q, a);
            assert(orient(pts[0], pts[m], pts[n - 1]) == orient(b, q, a));
            assert(orient(pts[0], pts[1], pts[m]) == orient(b, c, q));
            assert(orient(pts[1], pts[m], pts[n - 1]) == orient(c, q, a));
        }
    }
}

proof fn lemma_convex_clip_complete(indices: Seq<usize>, pts: Seq<Vec2>, ccw: bool, w: int)
    requires
        convex_loop(pts, ccw),
        pts.len() >= 2,
        ccw ==> w > 0,
        !ccw ==> w < 0,
    ensures
        clip(indices, pts, w).len() == pts.len() - 2,
    decreases pts.len(),
{
    if pts.len() >= 3 {
        lemma_convex_first_is_ear(pts, ccw, w);
        assert(ear_from(pts, w, 0) == Some(0int));
        let rest = pts.remove(0);
        assert(convex_loop(rest, ccw)) by {
            assert forall|j: int, k: int, l: int| 0 <= j < k < l < rest.len() implies if ccw {
                #[trigger] orient(rest[j], rest[k], rest[l]) > 0
            } else {
                orient(rest[j], rest[k], rest[l]) < 0
            } by {
                assert(rest[j] == pts[j + 1] && rest[k] == pts[k + 1] && rest[l] == pts[l + 1]);
                assert(orient(pts[j + 1], pts[k + 1], pts[l + 1]) == orient(rest[j], rest[k], rest[l]));
            }
        }
        lemma_convex_clip_complete(indices.remove(0), rest, ccw, w);
    }
}

/// A strictly convex loop of `n >= 3` points is cut into exactly `n - 2`
/// triangles, whose doubled areas add up to the absolute doubled shoelace
/// area of the loop.
pub proof fn lemma_convex_triangulation(pool: Seq<(i16, i16)>, indices: Seq<usize>, ccw: bool)
    requires
        indices_in_pool(pool.len() as int, indices),
        indices.len() >= 3,
        convex_loop(loop_points(pool, indices), ccw),
    ensures
        triangulation(pool, indices).len() == indices.len() - 2,
        doubled_area_sum(pool, triangulation(pool, indices)) == abs(
            shoelace(loop_points(pool, indices)),
        ),
{
    let pts = loop_points(pool, indices);
    lemma_convex_fan_sign(pts, ccw, pts.len() - 1);
    lemma_convex_clip_complete(indices, pts, ccw, winding(pts));
    lemma_complete_triangulation_area(pool, indices);
}

} // verus!
