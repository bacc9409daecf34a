use vstd::prelude::*;

use crate::bounded_rect::BoundingBox;
use crate::geometry::{abs, contains_triangle, corner, edge_side, in_range, in_triangle, Vec2};
use crate::layer::UiLayer;
use crate::triangulator::{entries_below, indices_in_pool};

verus! {

pub open spec fn min3(a: int, b: int, c: int) -> int {
    if a <= b && a <= c {
        a
    } else if b <= c {
        b
    } else {
        c
    }
}

pub open spec fn max3(a: int, b: int, c: int) -> int {
    if a >= b && a >= c {
        a
    } else if b >= c {
        b
    } else {
        c
    }
}

/// The smallest box that holds the three points.
pub open spec fn bbox_of(v: [Vec2; 3]) -> BoundingBox {
    BoundingBox {
        left: min3(v[0].x as int, v[1].x as int, v[2].x as int) as i64,
        right: max3(v[0].x as int, v[1].x as int, v[2].x as int) as i64,
        top: min3(v[0].y as int, v[1].y as int, v[2].y as int) as i64,
        bottom: max3(v[0].y as int, v[1].y as int, v[2].y as int) as i64,
    }
}

/// The points lie in range and no two of them are more than `2^16` apart in
/// either coordinate, as points of one pool moved by one shift are.
pub open spec fn near_points(pts: Seq<Vec2>) -> bool {
    &&& forall|k: int| 0 <= k < pts.len() ==> in_range(#[trigger] pts[k])
    &&& forall|j: int, k: int|
        0 <= j < pts.len() && 0 <= k < pts.len() ==> -0x1_0000 <= #[trigger] pts[j].x - #[trigger] pts[k].x
            <= 0x1_0000 && -0x1_0000 <= pts[j].y - pts[k].y <= 0x1_0000
}

/// A triangle of a snapshot, with its points resolved and its bounding box.
#[derive(Debug)]
pub struct Triangle {
    pub vertices: [Vec2; 3],
    pub bounding_box: BoundingBox,
}

/// The resolved points of a triangle of pool indices.
pub open spec fn tri_points(pts: Seq<Vec2>, t: [usize; 3]) -> [Vec2; 3] {
    [pts[t[0] as int], pts[t[1] as int], pts[t[2] as int]]
}

/// Twice the area of the triangle: `|(v0 - v1) x (v2 - v1)|`.
pub open spec fn doubled_area_of(v: [Vec2; 3]) -> int {
    abs(corner(v[0], v[1], v[2]))
}

impl Triangle {
    /// The points are those of a snapshot pool and the box is theirs.
    pub open spec fn wf(&self) -> bool {
        &&& near_points(self.vertices@)
        &&& self.bounding_box == bbox_of(self.vertices)
    }

    /// The triangle `indices`, resolved against `vertices`, with its box.
    pub fn new(indices: &[usize; 3], vertices: &Vec<Vec2>) -> (r: Self)
        requires
            indices[0] < vertices@.len(),
            indices[1] < vertices@.len(),
            indices[2] < vertices@.len(),
        ensures
            r.vertices == tri_points(vertices@, *indices),
            r.bounding_box == bbox_of(r.vertices),
    {
        let vertices = [vertices[indices[0]], vertices[indices[1]], vertices[indices[2]]];
        let left = min_of(min_of(vertices[0].x, vertices[1].x), vertices[2].x);
        let right = max_of(max_of(vertices[0].x, vertices[1].x), vertices[2].x);
        let top = min_of(min_of(vertices[0].y, vertices[1].y), vertices[2].y);
        let bottom = max_of(max_of(vertices[0].y, vertices[1].y), vertices[2].y);
        let bounding_box = BoundingBox { left, right, top, bottom };
        Self { vertices, bounding_box }
    }

    /// Twice the area of the triangle.
    pub fn doubled_area(&self) -> (r: u64)
        requires
            near_points(self.vertices@),
        ensures
            r == doubled_area_of(self.vertices),
            r <= 0x2_0000_0000,
    {
        let v = self.vertices;
        assert(v@[0] == v[0] && v@[1] == v[1] && v@[2] == v[2]);
        let s1 = v[0].sub(v[1]);
        let s2 = v[2].sub(v[1]);
        proof {
            lemma_near_cross(s1, s2);
        }
        let c = s1.cross(s2);
        if c < 0 {
            (-c) as u64
        } else {
            c as u64
        }
    }
}

proof fn lemma_near_cross(u: Vec2, v: Vec2)
    requires
        -0x1_0000 <= u.x <= 0x1_0000,
        -0x1_0000 <= u.y <= 0x1_0000,
        -0x1_0000 <= v.x <= 0x1_0000,
        -0x1_0000 <= v.y <= 0x1_0000,
    ensures
        -0x2_0000_0000 <= u.x * v.y - u.y * v.x <= 0x2_0000_0000,
{
    let (a, b, c, d) = (u.x as int, u.y as int, v.x as int, v.y as int);
    assert(-0x1_0000_0000 <= a * d <= 0x1_0000_0000) by (nonlinear_arith)
        requires
            -0x1_0000 <= a <= 0x1_0000,
            -0x1_0000 <= d <= 0x1_0000,
    ;
    assert(-0x1_0000_0000 <= b * c <= 0x1_0000_0000) by (nonlinear_arith)
        requires
            -0x1_0000 <= b <= 0x1_0000,
            -0x1_0000 <= c <= 0x1_0000,
    ;
}

fn min_of(a: i64, b: i64) -> (r: i64)
    ensures
        r == if a <= b {
            a
        } else {
            b
        },
{
    if a <= b {
        a
    } else {
        b
    }
}

fn max_of(a: i64, b: i64) -> (r: i64)
    ensures
        r == if a >= b {
            a
        } else {
            b
        },
{
    if a >= b {
        a
    } else {
        b
    }
}

/// The coordinates of the loop's points, flattened as `x0, y0, x1, y1, ...`.
pub open spec fn flatten_loop(pts: Seq<Vec2>, indices: Seq<usize>) -> Seq<i64>
    decreases indices.len(),
{
    if indices.len() == 0 {
        Seq::empty()
    } else {
        let p = pts[indices.last() as int];
        flatten_loop(pts, indices.drop_last()) + seq![p.x, p.y]
    }
}

/// The sum of the doubled areas of the triangles.
pub open spec fn area_sum(tris: Seq<Triangle>) -> int
    decreases tris.len(),
{
    if tris.len() == 0 {
        0
    } else {
        area_sum(tris.drop_last()) + doubled_area_of(tris.last().vertices)
    }
}

/// The box that bounds nothing: every later union replaces its edges.
pub open spec fn empty_box() -> BoundingBox {
    BoundingBox { left: i64::MAX, top: i64::MAX, right: i64::MIN, bottom: i64::MIN }
}

/// The smallest box holding both boxes.
pub open spec fn merge_box(a: BoundingBox, b: BoundingBox) -> BoundingBox {
    BoundingBox {
        left: if a.left <= b.left {
            a.left
        } else {
            b.left
        },
        right: if a.right >= b.right {
            a.right
        } else {
            b.right
        },
        top: if a.top <= b.top {
            a.top
        } else {
            b.top
        },
        bottom: if a.bottom >= b.bottom {
            a.bottom
        } else {
            b.bottom
        },
    }
}

/// The union of the triangles' boxes, starting from `empty_box()`.
pub open spec fn box_union(tris: Seq<Triangle>) -> BoundingBox
    decreases tris.len(),
{
    if tris.len() == 0 {
        empty_box()
    } else {
        merge_box(box_union(tris.drop_last()), tris.last().bounding_box)
    }
}

/// A snapshot of one layer: its flattened outline, its resolved triangles,
/// its id, its category id and its RGB color.
pub struct Segmentation {
    pub vertices: Vec<i64>,
    pub triangles: Vec<Triangle>,
    pub id: usize,
    pub type_id: usize,
    pub color: [u8; 3],
}

/// `s` is the snapshot of `layer` over the (shifted) pool points `pts`.
pub open spec fn snapshot_of(s: Segmentation, layer: UiLayer, pts: Seq<Vec2>) -> bool {
    let tris = layer.triangles_view();
    &&& s.vertices@ == flatten_loop(pts, layer.loop_view())
    &&& s.triangles@.len() == tris.len()
    &&& forall|t: int|
        0 <= t < tris.len() ==> (#[trigger] s.triangles@[t]).vertices == tri_points(pts, tris[t])
            && s.triangles@[t].bounding_box == bbox_of(s.triangles@[t].vertices)
    &&& s.id == layer.id_view()
    &&& s.type_id == layer.info_view().2
    &&& s.color == [layer.info_view().1[0], layer.info_view().1[1], layer.info_view().1[2]]
}

impl Segmentation {
    /// Every triangle is well formed.
    pub open spec fn wf(&self) -> bool {
        forall|t: int| 0 <= t < self.triangles@.len() ==> (#[trigger] self.triangles@[t]).wf()
    }

    /// The snapshot of `layer` over the pool points `vertices`.
    pub fn from_layer(layer: &UiLayer, vertices: &Vec<Vec2>) -> (r: Self)
        requires
            entries_below(layer.triangles_view(), vertices@.len() as int),
            indices_in_pool(vertices@.len() as int, layer.loop_view()),
        ensures
            snapshot_of(r, *layer, vertices@),
            near_points(vertices@) ==> r.wf(),
    {
        let tris = layer.triangles();
        let n = tris.len();
        let mut triangles: Vec<Triangle> = Vec::new();
        for t in 0..n
            invariant
                n == tris@.len(),
                tris@ == layer.triangles_view(),
                entries_below(layer.triangles_view(), vertices@.len() as int),
                triangles@.len() == t,
                forall|u: int|
                    0 <= u < t ==> (#[trigger] triangles@[u]).vertices == tri_points(
                        vertices@,
                        tris@[u],
                    ) && triangles@[u].bounding_box == bbox_of(triangles@[u].vertices),
        {
            assert(tris@[t as int][0] < vertices@.len());
            assert(tris@[t as int][1] < vertices@.len());
            assert(tris@[t as int][2] < vertices@.len());
            triangles.push(Triangle::new(&tris[t], vertices));
        }
        let color = layer.layer_info().color;
        let color = [color[0], color[1], color[2]];
        let indices = layer.indices();
        let m = indices.len();
        let mut flat: Vec<i64> = Vec::new();
        for k in 0..m
            invariant
                m == indices@.len(),
                indices@ == layer.loop_view(),
                indices_in_pool(vertices@.len() as int, layer.loop_view()),
                flat@ == flatten_loop(vertices@, indices@.take(k as int)),
        {
            let p = vertices[indices[k]];
            flat.push(p.x);
            flat.push(p.y);
            assert(indices@.take(k + 1).drop_last() =~= indices@.take(k as int));
        }
        assert(indices@.take(m as int) =~= indices@);
        let r = Self {
            id: layer.id(),
            type_id: layer.layer_info().id(),
            vertices: flat,
            triangles,
            color,
        };
        proof {
            if near_points(vertices@) {
                assert forall|t: int| 0 <= t < r.triangles@.len() implies (#[trigger] r.triangles@[t]).wf() by {
                    let v = r.triangles@[t].vertices;
                    let tr = tris@[t];
                    assert(tr[0] < vertices@.len() && tr[1] < vertices@.len() && tr[2] < vertices@.len());
                    assert(v@[0] == vertices@[tr[0] as int]);
                    assert(v@[1] == vertices@[tr[1] as int]);
                    assert(v@[2] == vertices@[tr[2] as int]);
                }
            }
        }
        r
    }

    /// Twice the area of the layer: the sum of its triangles' doubled areas.
    pub fn doubled_area(&self) -> (r: u128)
        requires
            self.wf(),
        ensures
            r == area_sum(self.triangles@),
    {
        let n = self.triangles.len();
        let mut acc: u128 = 0;
        for t in 0..n
            invariant
                n == self.triangles@.len(),
                self.wf(),
                acc == area_sum(self.triangles@.take(t as int)),
                acc <= t * 0x2_0000_0000,
        {
            let a = self.triangles[t].doubled_area();
            assert(self.triangles@.take(t + 1).drop_last() =~= self.triangles@.take(t as int));
            acc = acc + a as u128;
        }
        assert(self.triangles@.take(n as int) =~= self.triangles@);
        acc
    }

    /// The union of the triangles' boxes, or the empty box.
    pub fn bounding_box(&self) -> (r: BoundingBox)
        ensures
            r == box_union(self.triangles@),
    {
        let mut bounding_box = BoundingBox::new(i64::MAX, i64::MAX, i64::MIN, i64::MIN);
        let n = self.triangles.len();
        for t in 0..n
            invariant
                n == self.triangles@.len(),
                bounding_box == box_union(self.triangles@.take(t as int)),
        {
            let b = self.triangles[t].bounding_box;
            bounding_box.left = min_of(bounding_box.left, b.left);
            bounding_box.right = max_of(bounding_box.right, b.right);
            bounding_box.top = min_of(bounding_box.top, b.top);
            bounding_box.bottom = max_of(bounding_box.bottom, b.bottom);
            assert(self.triangles@.take(t + 1).drop_last() =~= self.triangles@.take(t as int));
        }
        assert(self.triangles@.take(n as int) =~= self.triangles@);
        bounding_box
    }

    pub fn vertices(&self) -> (r: &Vec<i64>)
        ensures
            r@ == self.vertices@,
    {
        &self.vertices
    }
}

/// Pixel `(x, y)` of a `w` by `h` image lies in the triangle's box and
/// strictly inside the triangle.
pub open spec fn paints(t: Triangle, w: int, h: int, x: int, y: int) -> bool {
    &&& 0 <= x < w
    &&& 0 <= y < h
    &&& t.bounding_box.left <= x <= t.bounding_box.right
    &&& t.bounding_box.top <= y <= t.bounding_box.bottom
    &&& in_triangle(t.vertices[0], t.vertices[1], t.vertices[2], Vec2 { x: x as i64, y: y as i64 })
}

/// The triangles of the snapshots in drawing order, each with its
/// snapshot's color.
pub open spec fn paint_order(segs: Seq<Segmentation>) -> Seq<(Triangle, [u8; 3])>
    decreases segs.len(),
{
    if segs.len() == 0 {
        Seq::empty()
    } else {
        let last = segs.last();
        paint_order(segs.drop_last()) + last.triangles@.map_values(
            |t: Triangle| (t, last.color),
        )
    }
}

/// The color of pixel `(x, y)`: that of the last triangle that paints it,
/// or black when none does.
pub open spec fn pixel_color(items: Seq<(Triangle, [u8; 3])>, w: int, h: int, x: int, y: int) -> [u8; 3]
    decreases items.len(),
{
    if items.len() == 0 {
        [0u8, 0u8, 0u8]
    } else if paints(items.last().0, w, h, x, y) {
        items.last().1
    } else {
        pixel_color(items.drop_last(), w, h, x, y)
    }
}

/// A mask of `h` rows of `w` pixels; row `r` holds the pixels whose `y` is
/// `h - 1 - r`, so the first row is the top of the image.
pub open spec fn mask_shape(mask: Seq<Vec<[u8; 3]>>, w: int, h: int) -> bool {
    mask.len() == h && forall|r: int| 0 <= r < h ==> (#[trigger] mask[r])@.len() == w
}

/// The mask holds the colors that the triangles of `items` give its pixels.
pub open spec fn mask_of(mask: Seq<Vec<[u8; 3]>>, items: Seq<(Triangle, [u8; 3])>, w: int, h: int) -> bool {
    &&& mask_shape(mask, w, h)
    &&& forall|r: int, x: int|
        0 <= r < h && 0 <= x < w ==> #[trigger] mask[r]@[x] == pixel_color(items, w, h, x, h - 1 - r)
}

/// The pixel at `(x, y)` comes before the scan position `(sx, sy)`.
pub open spec fn scanned(x: int, y: int, sx: int, sy: int) -> bool {
    y < sy || (y == sy && x < sx)
}

impl Triangle {
    /// Writes `color` to every pixel of the mask that the triangle paints.
    pub fn render(&self, color: [u8; 3], mask: &mut Vec<Vec<[u8; 3]>>, width: u32, height: u32)
        requires
            self.wf(),
            mask_shape(old(mask)@, width as int, height as int),
        ensures
            mask_shape(final(mask)@, width as int, height as int),
            forall|r: int, x: int|
                0 <= r < height && 0 <= x < width ==> #[trigger] final(mask)@[r]@[x] == if paints(
                    *self,
                    width as int,
                    height as int,
                    x,
                    height - 1 - r,
                ) {
                    color
                } else {
                    old(mask)@[r]@[x]
                },
    {
        let bb = self.bounding_box;
        let w = width as i64;
        let h = height as i64;
        if w == 0 || h == 0 || bb.right < 0 || bb.bottom < 0 || bb.left >= w || bb.top >= h {
            return ;
        }
        let x0 = max_of(bb.left, 0);
        let x1 = min_of(bb.right, w - 1);
        let y0 = max_of(bb.top, 0);
        let y1 = min_of(bb.bottom, h - 1);
        let v = self.vertices;
        assert(v@[0] == v[0] && v@[1] == v[1] && v@[2] == v[2]);
        assert(in_range(v[0]) && in_range(v[1]) && in_range(v[2]));
        assert(bb.left <= bb.right && bb.top <= bb.bottom);
        let ghost start = mask@;
        let mut y = y0;
        while y <= y1
            invariant
                0 <= y0 <= y <= y1 + 1,
                y1 < h,
                0 <= x0 <= x1 < w,
                w == width,
                h == height,
                x0 == (if bb.left >= 0 { bb.left as int } else { 0 }),
                x1 == (if bb.right <= w - 1 { bb.right as int } else { w - 1 }),
                y0 == (if bb.top >= 0 { bb.top as int } else { 0 }),
                y1 == (if bb.bottom <= h - 1 { bb.bottom as int } else { h - 1 }),
                bb == self.bounding_box,
                v == self.vertices,
                in_range(v[0]) && in_range(v[1]) && in_range(v[2]),
                mask_shape(mask@, w as int, h as int),
                mask_shape(start, w as int, h as int),
                forall|r: int, x: int|
                    0 <= r < h && 0 <= x < w ==> #[trigger] mask@[r]@[x] == if paints(
                        *self,
                        w as int,
                        h as int,
                        x,
                        h - 1 - r,
                    ) && scanned(x, h - 1 - r, 0, y as int) {
                        color
                    } else {
                        start[r]@[x]
                    },
            decreases y1 + 1 - y,
        {
            let row = (h - 1 - y) as usize;
            let mut x = x0;
            while x <= x1
                invariant
                    0 <= y0 <= y <= y1,
                    y1 < h,
                    0 <= x0 <= x <= x1 + 1,
                    x1 < w,
                    w == width,
                    h == height,
                    row == h - 1 - y,
                    x0 == (if bb.left >= 0 { bb.left as int } else { 0 }),
                    x1 == (if bb.right <= w - 1 { bb.right as int } else { w - 1 }),
                    y0 == (if bb.top >= 0 { bb.top as int } else { 0 }),
                    y1 == (if bb.bottom <= h - 1 { bb.bottom as int } else { h - 1 }),
                    bb == self.bounding_box,
                    v == self.vertices,
                    in_range(v[0]) && in_range(v[1]) && in_range(v[2]),
                    mask_shape(mask@, w as int, h as int),
                    mask_shape(start, w as int, h as int),
                    forall|r: int, xx: int|
                        0 <= r < h && 0 <= xx < w ==> #[trigger] mask@[r]@[xx] == if paints(
                            *self,
                            w as int,
                            h as int,
                            xx,
                            h - 1 - r,
                        ) && (scanned(xx, h - 1 - r, 0, y as int) || (h - 1 - r == y && xx
                            < x)) {
                            color
                        } else {
                            start[r]@[xx]
                        },
                decreases x1 + 1 - x,
            {
                let p = Vec2::new(x, y);
                if contains_triangle((v[0], v[1], v[2]), p) {
                    let ghost before = mask@;
                    mask[row].set(x as usize, color);
                    proof {
                        assert forall|r: int| 0 <= r < h implies (#[trigger] mask@[r])@.len() == w by {
                            if r != row {
                                assert(mask@[r] == before[r]);
                            }
                        }
                    }
                }
                x = x + 1;
            }
            y = y + 1;
        }
    }
}

/// Rasterizes the snapshots into a mask of `resolution.1` rows of
/// `resolution.0` pixels: triangles are drawn in order, so a later one wins
/// where two overlap; pixels that no triangle covers stay black.
pub fn build_mask(resolution: (u32, u32), segments: &Vec<Segmentation>) -> (r: Vec<Vec<[u8; 3]>>)
    requires
        forall|k: int| 0 <= k < segments@.len() ==> (#[trigger] segments@[k]).wf(),
    ensures
        mask_of(r@, paint_order(segments@), resolution.0 as int, resolution.1 as int),
{
    let (width, height) = resolution;
    let mut mask: Vec<Vec<[u8; 3]>> = Vec::new();
    for r in 0..height
        invariant
            mask@.len() == r,
            forall|rr: int| 0 <= rr < r ==> (#[trigger] mask@[rr])@ == Seq::new(width as nat, |x: int| [0u8, 0u8, 0u8]),
    {
        let mut row: Vec<[u8; 3]> = Vec::new();
        for x in 0..width
            invariant
                row@ == Seq::new(x as nat, |i: int| [0u8, 0u8, 0u8]),
        {
            row.push([0u8, 0u8, 0u8]);
            assert(row@ =~= Seq::new((x + 1) as nat, |i: int| [0u8, 0u8, 0u8]));
        }
        mask.push(row);
    }
    assert(mask_of(mask@, Seq::empty(), width as int, height as int));
    let n = segments.len();
    for s in 0..n
        invariant
            n == segments@.len(),
            forall|k: int| 0 <= k < segments@.len() ==> (#[trigger] segments@[k]).wf(),
            mask_of(mask@, paint_order(segments@.take(s as int)), width as int, height as int),
    {
        let segment = &segments[s];
        let m = segment.triangles.len();
        let ghost done = paint_order(segments@.take(s as int));
        let ghost items = segment.triangles@.map_values(|t: Triangle| (t, segment.color));
        for t in 0..m
            invariant
                m == segment.triangles@.len(),
                segment == segments@[s as int],
                segment.wf(),
                items == segment.triangles@.map_values(|t: Triangle| (t, segment.color)),
                mask_of(mask@, done + items.take(t as int), width as int, height as int),
        {
            let ghost before = mask@;
            segment.triangles[t].render(segment.color, &mut mask, width, height);
            proof {
                let prev = done + items.take(t as int);
                let next = done + items.take(t + 1);
                assert(next.drop_last() =~= prev);
                assert(next.last() == (segment.triangles@[t as int], segment.color));
                assert forall|r: int, x: int|
                    0 <= r < height && 0 <= x < width implies #[trigger] mask@[r]@[x]
                    == pixel_color(next, width as int, height as int, x, height - 1 - r) by {
                    assert(before[r]@[x] == pixel_color(prev, width as int, height as int, x, height - 1 - r));
                }
            }
        }
        proof {
            assert(items.take(m as int) =~= items);
            assert(segments@.take(s + 1).drop_last() =~= segments@.take(s as int));
            assert(segments@.take(s + 1).last() == segments@[s as int]);
        }
    }
    assert(segments@.take(n as int) =~= segments@);
    mask
}

/// The points that a flattened outline `x0, y0, x1, y1, ...` lists, in order.
pub open spec fn outline_points(flat: Seq<i64>) -> Seq<Vec2> {
    Seq::new(flat.len() / 2, |k: int| Vec2 { x: flat[2 * k], y: flat[2 * k + 1] })
}

/// The loop `0, 1, ..., n - 1` over a fresh pool.
pub open spec fn fresh_loop(n: nat) -> Seq<usize> {
    Seq::new(n, |k: int| k as usize)
}

pub proof fn lemma_flatten_loop_index(pts: Seq<Vec2>, indices: Seq<usize>)
    ensures
        flatten_loop(pts, indices).len() == 2 * indices.len(),
        forall|k: int|
            0 <= k < indices.len() ==> flatten_loop(pts, indices)[2 * k] == pts[#[trigger] indices[k] as int].x
                && flatten_loop(pts, indices)[2 * k + 1] == pts[indices[k] as int].y,
    decreases indices.len(),
{
    if indices.len() > 0 {
        let init = indices.drop_last();
        lemma_flatten_loop_index(pts, init);
        let f = flatten_loop(pts, indices);
        assert forall|k: int| 0 <= k < indices.len() implies f[2 * k] == pts[#[trigger] indices[k] as int].x
            && f[2 * k + 1] == pts[indices[k] as int].y by {
            if k < indices.len() - 1 {
                assert(init[k] == indices[k]);
            }
        }
    }
}

proof fn lemma_one_color_wins(
    before: Seq<(Triangle, [u8; 3])>,
    tris: Seq<Triangle>,
    color: [u8; 3],
    w: int,
    h: int,
    t: int,
    x: int,
    y: int,
)
    requires
        0 <= t < tris.len(),
        paints(tris[t], w, h, x, y),
    ensures
        pixel_color(before + tris.map_values(|u: Triangle| (u, color)), w, h, x, y) == color,
    decreases tris.len(),
{
    let items = before + tris.map_values(|u: Triangle| (u, color));
    assert(items.last() == (tris.last(), color));
    if !paints(tris.last(), w, h, x, y) {
        let init = tris.drop_last();
        assert(t < tris.len() - 1);
        assert(init[t] == tris[t]);
        lemma_one_color_wins(before, init, color, w, h, t, x, y);
        assert(items.drop_last() =~= before + init.map_values(|u: Triangle| (u, color)));
    }
}

/// Later layers win: a pixel that a triangle of the last snapshot covers
/// takes that snapshot's color, whatever the earlier snapshots drew there.
pub proof fn lemma_last_layer_wins(segs: Seq<Segmentation>, w: int, h: int, t: int, x: int, y: int)
    requires
        segs.len() > 0,
        0 <= t < segs.last().triangles@.len(),
        paints(segs.last().triangles@[t], w, h, x, y),
    ensures
        pixel_color(paint_order(segs), w, h, x, y) == segs.last().color,
{
    let last = segs.last();
    lemma_one_color_wins(paint_order(segs.drop_last()), last.triangles@, last.color, w, h, t, x, y);
}

proof fn lemma_weighted_positive(w0: int, w1: int, w2: int, x0: int, x1: int, x2: int, px: int)
    requires
        w0 > 0 && w1 > 0 && w2 > 0,
        w0 * x0 + w1 * x1 + w2 * x2 == (w0 + w1 + w2) * px,
    ensures
        min3(x0, x1, x2) <= px <= max3(x0, x1, x2),
{
    let (lo, hi) = (min3(x0, x1, x2), max3(x0, x1, x2));
    assert(w0 * lo <= w0 * x0 <= w0 * hi) by (nonlinear_arith)
        requires
            w0 > 0,
            lo <= x0 <= hi,
    ;
    assert(w1 * lo <= w1 * x1 <= w1 * hi) by (nonlinear_arith)
        requires
            w1 > 0,
            lo <= x1 <= hi,
    ;
    assert(w2 * lo <= w2 * x2 <= w2 * hi) by (nonlinear_arith)
        requires
            w2 > 0,
            lo <= x2 <= hi,
    ;
    let t = w0 + w1 + w2;
    assert(t * lo == w0 * lo + w1 * lo + w2 * lo) by (nonlinear_arith)
        requires
            t == w0 + w1 + w2,
    ;
    assert(t * hi == w0 * hi + w1 * hi + w2 * hi) by (nonlinear_arith)
        requires
            t == w0 + w1 + w2,
    ;
    assert(lo <= px <= hi) by (nonlinear_arith)
        requires
            t > 0,
            t * lo <= t * px <= t * hi,
    ;
}

proof fn lemma_weighted(w0: int, w1: int, w2: int, x0: int, x1: int, x2: int, px: int)
    requires
        (w0 > 0 && w1 > 0 && w2 > 0) || (w0 < 0 && w1 < 0 && w2 < 0),
        w0 * x0 + w1 * x1 + w2 * x2 == (w0 + w1 + w2) * px,
    ensures
        min3(x0, x1, x2) <= px <= max3(x0, x1, x2),
{
    if w0 > 0 {
        lemma_weighted_positive(w0, w1, w2, x0, x1, x2, px);
    } else {
        assert((-w0) * x0 + (-w1) * x1 + (-w2) * x2 == ((-w0) + (-w1) + (-w2)) * px)
            by (nonlinear_arith)
            requires
                w0 * x0 + w1 * x1 + w2 * x2 == (w0 + w1 + w2) * px,
        ;
        lemma_weighted_positive(-w0, -w1, -w2, x0, x1, x2, px);
    }
}

proof fn lemma_cross_cycle(ax: int, ay: int, bx: int, by: int, cx: int, cy: int)
    ensures
        (bx * cy - by * cx) * ax + (cx * ay - cy * ax) * bx + (ax * by - ay * bx) * cx == 0,
{
    assert((bx * cy - by * cx) * ax + (cx * ay - cy * ax) * bx + (ax * by - ay * bx) * cx == 0)
        by (nonlinear_arith);
}

proof fn lemma_side_as_cross(ax: int, ay: int, bx: int, by: int, px: int, py: int)
    ensures
        (px - ax) * (-(ay - by)) + (py - ay) * (ax - bx) == -((ax - px) * (by - py) - (ay - py) * (
        bx - px)),
{
    assert((px - ax) * (-(ay - by)) + (py - ay) * (ax - bx) == -((ax - px) * (by - py) - (ay - py)
        * (bx - px))) by (nonlinear_arith);
}

proof fn lemma_shift_sum(s0: int, s1: int, s2: int, u0: int, u1: int, u2: int, q: int)
    requires
        s1 * u0 + s2 * u1 + s0 * u2 == 0,
    ensures
        s1 * (u0 + q) + s2 * (u1 + q) + s0 * (u2 + q) == (s0 + s1 + s2) * q,
{
    assert(s1 * (u0 + q) + s2 * (u1 + q) + s0 * (u2 + q) == (s1 * u0 + s2 * u1 + s0 * u2) + (s0
        + s1 + s2) * q) by (nonlinear_arith);
}

/// A point strictly inside a triangle lies in the triangle's bounding box.
pub proof fn lemma_inside_is_in_box(v: [Vec2; 3], p: Vec2)
    requires
        in_triangle(v[0], v[1], v[2], p),
    ensures
        min3(v[0].x as int, v[1].x as int, v[2].x as int) <= p.x <= max3(
            v[0].x as int,
            v[1].x as int,
            v[2].x as int,
        ),
        min3(v[0].y as int, v[1].y as int, v[2].y as int) <= p.y <= max3(
            v[0].y as int,
            v[1].y as int,
            v[2].y as int,
        ),
{
    let (a, b, c) = (v[0], v[1], v[2]);
    let (px, py) = (p.x as int, p.y as int);
    let (ax, ay, bx, by, cx, cy) = (a.x - px, a.y - py, b.x - px, b.y - py, c.x - px, c.y - py);
    let s0 = edge_side(a, b, p);
    let s1 = edge_side(b, c, p);
    let s2 = edge_side(c, a, p);
    lemma_side_as_cross(a.x as int, a.y as int, b.x as int, b.y as int, px, py);
    lemma_side_as_cross(b.x as int, b.y as int, c.x as int, c.y as int, px, py);
    lemma_side_as_cross(c.x as int, c.y as int, a.x as int, a.y as int, px, py);
    assert(s0 == -(ax * by - ay * bx));
    assert(s1 == -(bx * cy - by * cx));
    assert(s2 == -(cx * ay - cy * ax));
    lemma_cross_cycle(ax, ay, bx, by, cx, cy);
    lemma_cross_cycle(ay, ax, by, bx, cy, cx);
    assert(s1 * ax + s2 * bx + s0 * cx == 0) by (nonlinear_arith)
        requires
            s0 == -(ax * by - ay * bx),
            s1 == -(bx * cy - by * cx),
            s2 == -(cx * ay - cy * ax),
            (bx * cy - by * cx) * ax + (cx * ay - cy * ax) * bx + (ax * by - ay * bx) * cx == 0,
    ;
    assert(s1 * ay + s2 * by + s0 * cy == 0) by (nonlinear_arith)
        requires
            s0 == -(ax * by - ay * bx),
            s1 == -(bx * cy - by * cx),
            s2 == -(cx * ay - cy * ax),
            (by * cx - bx * cy) * ay + (cy * ax - cx * ay) * by + (ay * bx - ax * by) * cy == 0,
    ;
    lemma_shift_sum(s0, s1, s2, ax, bx, cx, px);
    lemma_shift_sum(s0, s1, s2, ay, by, cy, py);
    lemma_weighted(s1, s2, s0, a.x as int, b.x as int, c.x as int, p.x as int);
    lemma_weighted(s1, s2, s0, a.y as int, b.y as int, c.y as int, p.y as int);
}

/// Later layers win, for every pixel strictly inside a triangle of the last
/// snapshot: such a pixel of the image takes that snapshot's color, whatever
/// the earlier snapshots drew there.
pub proof fn lemma_inside_last_layer_wins(
    segs: Seq<Segmentation>,
    w: int,
    h: int,
    t: int,
    x: int,
    y: int,
)
    requires
        segs.len() > 0,
        0 <= t < segs.last().triangles@.len(),
        segs.last().triangles@[t].wf(),
        0 <= x < w,
        0 <= y < h,
        ({
            let v = segs.last().triangles@[t].vertices;
            in_triangle(v[0], v[1], v[2], Vec2 { x: x as i64, y: y as i64 })
        }),
        x <= i64::MAX && y <= i64::MAX,
    ensures
        pixel_color(paint_order(segs), w, h, x, y) == segs.last().color,
{
    let tri = segs.last().triangles@[t];
    lemma_inside_is_in_box(tri.vertices, Vec2 { x: x as i64, y: y as i64 });
    assert(paints(tri, w, h, x, y));
    lemma_last_layer_wins(segs, w, h, t, x, y);
}

} // verus!
