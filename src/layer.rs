use vstd::prelude::*;

use crate::geometry::{contains_triangle, in_triangle, Vec2};
use crate::triangulator::{indices_in_pool, pool_point, triangulate, triangulation};

verus! {

/// An error of the application, with a message for the user.
pub struct AppError {
    pub error_msg: String,
}

/// A category of annotation: its name, its RGBA color and its id.
pub struct LayerInfo {
    pub layer_type: String,
    pub color: [u8; 4],
    pub id: usize,
}

impl LayerInfo {
    pub fn id(&self) -> (r: usize)
        ensures
            r == self.id,
    {
        self.id
    }

    /// A copy of this category.
    pub fn duplicate(&self) -> (r: LayerInfo)
        ensures
            r.layer_type@ == self.layer_type@,
            r.color == self.color,
            r.id == self.id,
    {
        LayerInfo { layer_type: self.layer_type.clone(), color: self.color, id: self.id }
    }
}

/// Lifecycle of a layer: `New` accepts more points, `Finished` is closed.
pub enum LayerStatus {
    New,
    Finished,
}

/// One polygon annotation: a loop of indices into the shared point pool, its
/// category, its status and its cached triangulation.
pub struct UiLayer {
    indices: Vec<usize>,
    triangles: Vec<[usize; 3]>,
    layer_info: LayerInfo,
    status: LayerStatus,
    id: usize,
}

impl UiLayer {
    /// The boundary loop, in insertion order.
    pub closed spec fn loop_view(&self) -> Seq<usize> {
        self.indices@
    }

    /// The cached triangles.
    pub closed spec fn triangles_view(&self) -> Seq<[usize; 3]> {
        self.triangles@
    }

    /// Whether the loop has been closed.
    pub closed spec fn closed_view(&self) -> bool {
        self.status is Finished
    }

    pub closed spec fn id_view(&self) -> usize {
        self.id
    }

    pub closed spec fn info_view(&self) -> (Seq<char>, [u8; 4], usize) {
        (self.layer_info.layer_type@, self.layer_info.color, self.layer_info.id)
    }

    /// An empty, open layer.
    pub fn new(id: usize, layer_info: LayerInfo) -> (r: Result<Self, AppError>)
        ensures
            r matches Ok(l) && l.loop_view() == Seq::<usize>::empty() && l.triangles_view()
                == Seq::<[usize; 3]>::empty() && !l.closed_view() && l.id_view() == id
                && l.info_view() == (layer_info.layer_type@, layer_info.color, layer_info.id),
    {
        Ok(UiLayer { triangles: vec![], indices: vec![], layer_info, status: LayerStatus::New, id })
    }

    /// Whether `point` lies strictly inside one of the cached triangles.
    pub fn contains(&self, vertices: &Vec<(i16, i16)>, point: (i16, i16)) -> (r: bool)
        requires
            forall|t: int, c: int|
                0 <= t < self.triangles_view().len() && 0 <= c < 3 ==> #[trigger] self.triangles_view()[t][c]
                    < vertices@.len(),
        ensures
            r == exists|t: int|
                0 <= t < self.triangles_view().len() && #[trigger] covers(
                    vertices@,
                    self.triangles_view()[t],
                    point,
                ),
    {
        let n = self.triangles.len();
        let p = Vec2::new(point.0 as i64, point.1 as i64);
        for k in 0..n
            invariant
                n == self.triangles.len(),
                p == pool_point(point),
                self.triangles@ == self.triangles_view(),
                forall|t: int, c: int|
                    0 <= t < self.triangles_view().len() && 0 <= c < 3 ==> #[trigger] self.triangles_view()[t][c]
                        < vertices@.len(),
                forall|t: int|
                    0 <= t < k ==> !#[trigger] covers(vertices@, self.triangles_view()[t], point),
        {
            let triangle = self.triangles[k];
            assert(triangle[0] < vertices@.len() && triangle[1] < vertices@.len() && triangle[2]
                < vertices@.len()) by {
                assert(self.triangles_view()[k as int][0] < vertices@.len());
                assert(self.triangles_view()[k as int][1] < vertices@.len());
                assert(self.triangles_view()[k as int][2] < vertices@.len());
            }
            let a = vertices[triangle[0]];
            let b = vertices[triangle[1]];
            let c = vertices[triangle[2]];
            if contains_triangle(
                (
                    Vec2::new(a.0 as i64, a.1 as i64),
                    Vec2::new(b.0 as i64, b.1 as i64),
                    Vec2::new(c.0 as i64, c.1 as i64),
                ),
                p,
            ) {
                assert(covers(vertices@, self.triangles_view()[k as int], point));
                return true;
            }
        }
        false
    }

    /// Adds a pool index to the boundary. The layer's first index closes the
    /// loop instead of being added again; any other index is appended, even one
    /// the loop already holds. A closed layer is left as it is.
    pub fn add_node(&mut self, point: usize)
        ensures
            final(self).id_view() == old(self).id_view(),
            final(self).info_view() == old(self).info_view(),
            final(self).triangles_view() == old(self).triangles_view(),
            old(self).closed_view() ==> final(self).loop_view() == old(self).loop_view()
                && final(self).closed_view(),
            !old(self).closed_view() ==> if old(self).loop_view().len() > 0 && old(
                self,
            ).loop_view()[0] == point {
                final(self).closed_view() && final(self).loop_view() == old(self).loop_view()
            } else {
                !final(self).closed_view() && final(self).loop_view() == old(
                    self,
                ).loop_view().push(point)
            },
    {
        if self.is_completed() {
            return ;
        }
        if self.indices.len() > 0 && self.indices[0] == point {
            self.status = LayerStatus::Finished;
        } else {
            self.indices.push(point);
        }
    }

    /// Recomputes the cached triangles from the boundary loop and the pool.
    pub fn update(&mut self, nodes: &Vec<(i16, i16)>)
        requires
            indices_in_pool(nodes@.len() as int, old(self).loop_view()),
        ensures
            final(self).id_view() == old(self).id_view(),
            final(self).info_view() == old(self).info_view(),
            final(self).loop_view() == old(self).loop_view(),
            final(self).closed_view() == old(self).closed_view(),
            final(self).triangles_view() == triangulation(nodes@, old(self).loop_view()),
    {
        triangulate(nodes, &self.indices, &mut self.triangles);
    }

    pub fn id(&self) -> (r: usize)
        ensures
            r == self.id_view(),
    {
        self.id
    }

    pub fn triangles(&self) -> (r: &Vec<[usize; 3]>)
        ensures
            r@ == self.triangles_view(),
    {
        &self.triangles
    }

    pub fn indices(&self) -> (r: &Vec<usize>)
        ensures
            r@ == self.loop_view(),
    {
        &self.indices
    }

    pub fn layer_info(&self) -> (r: &LayerInfo)
        ensures
            (r.layer_type@, r.color, r.id) == self.info_view(),
    {
        &self.layer_info
    }

    pub fn is_completed(&self) -> (r: bool)
        ensures
            r == self.closed_view(),
    {
        match self.status {
            LayerStatus::Finished => true,
            _ => false,
        }
    }

    /// The cached triangles flattened into one index list, three per triangle.
    pub fn triangle_indices(&self) -> (r: Vec<usize>)
        ensures
            r@.len() == 3 * self.triangles_view().len(),
            forall|t: int, c: int|
                0 <= t < self.triangles_view().len() && 0 <= c < 3 ==> r@[3 * t + c]
                    == #[trigger] self.triangles_view()[t][c],
    {
        let mut out: Vec<usize> = Vec::new();
        let n = self.triangles.len();
        for k in 0..n
            invariant
                n == self.triangles@.len(),
                out@.len() == 3 * k,
                forall|t: int, c: int|
                    0 <= t < k && 0 <= c < 3 ==> out@[3 * t + c] == #[trigger] self.triangles@[t][c],
        {
            let triangle = self.triangles[k];
            out.push(triangle[0]);
            out.push(triangle[1]);
            out.push(triangle[2]);
            assert(forall|c: int| 0 <= c < 3 ==> out@[3 * k + c] == #[trigger] triangle[c]);
        }
        out
    }
}

/// The triangle `t` of pool indices holds `point` strictly inside.
pub open spec fn covers(pool: Seq<(i16, i16)>, t: [usize; 3], point: (i16, i16)) -> bool {
    in_triangle(
        pool_point(pool[t[0] as int]),
        pool_point(pool[t[1] as int]),
        pool_point(pool[t[2] as int]),
        pool_point(point),
    )
}

} // verus!
