use vstd::prelude::*;
use vstd::string::StrSliceExecFns;

use crate::geometry::Vec2;
use crate::layer::{LayerInfo, UiLayer};
use crate::layer_json_exporter::{after_last, find_last, last_pos, lemma_last_pos_bounds};
use crate::segmentation::{
    fresh_loop, lemma_flatten_loop_index, near_points, outline_points, snapshot_of, Segmentation,
};
use crate::triangulator::{
    indices_in_pool, lemma_triangulate_translated, lemma_triangulation_in_pool, loop_points,
    translated, triangulate_points, triangulation,
};

verus! {

/// An edit of the workspace, as the user makes it.
pub enum EditorEvent {
    /// Choose the category of the layers created from now on.
    NewLayer(usize),
    /// Add an existing pool point to the selected layer.
    PointSelected(usize),
    /// Add a new point to the pool and to the selected layer.
    NewPoint((i16, i16)),
    /// Ask for the segmentation snapshots.
    Save,
}

/// The annotated image: its file name and its resolution in pixels.
pub struct ImageInfo {
    pub filename: String,
    pub resolution: (u32, u32),
}

/// The annotation workspace: the shared point pool, the layers that index
/// into it, the selected layer and the category for new layers.
pub struct ImageProcessor {
    selected_layer_type: usize,
    selected_layer_id: Option<usize>,
    layer_types: Vec<LayerInfo>,
    layers: Vec<UiLayer>,
    total_layer_count: usize,
    vertices: Vec<(i16, i16)>,
    nodes: Vec<usize>,
    image_info: ImageInfo,
}

/// Some layer's boundary holds pool index `i`.
pub open spec fn referenced(layers: Seq<UiLayer>, i: int) -> bool {
    exists|l: int, k: int|
        0 <= l < layers.len() && 0 <= k < layers[l].loop_view().len() && #[trigger] layers[l].loop_view()[k]
            == i
}

/// The pool indices below `n` that some layer references, in increasing order.
pub open spec fn referenced_upto(layers: Seq<UiLayer>, n: int) -> Seq<usize>
    decreases n,
{
    if n <= 0 {
        Seq::empty()
    } else {
        let below = referenced_upto(layers, n - 1);
        if referenced(layers, n - 1) {
            below.push((n - 1) as usize)
        } else {
            below
        }
    }
}

/// The layer's boundary lies in the pool and its cached triangles are the
/// triangulation of that boundary.
pub open spec fn layer_ok(pool: Seq<(i16, i16)>, l: UiLayer) -> bool {
    &&& indices_in_pool(pool.len() as int, l.loop_view())
    &&& l.triangles_view() == triangulation(pool, l.loop_view())
}

/// The two layer lists agree but at position `s`.
pub open spec fn same_except(a: Seq<UiLayer>, b: Seq<UiLayer>, s: int) -> bool {
    a.len() == b.len() && forall|k: int| 0 <= k < a.len() && k != s ==> #[trigger] a[k] == b[k]
}

/// A layer that has just been opened with the single pool index `i`.
pub open spec fn fresh_layer(l: UiLayer, id: int, info: LayerInfo, i: int) -> bool {
    &&& l.loop_view() == seq![i as usize]
    &&& !l.closed_view()
    &&& l.id_view() == id
    &&& l.info_view() == (info.layer_type@, info.color, info.id)
}

/// The layers and the selection after pool index `i` went to the workspace
/// `a`, giving `b`: the selected layer takes `i` (and closes when `i` is its
/// first index); with no selected layer, a new layer of the current category
/// opens with `i`; with no such category, nothing changes.
pub open spec fn point_added(a: ImageProcessor, b: ImageProcessor, i: int) -> bool {
    let (la, lb) = (a.layers_view(), b.layers_view());
    match a.selected_view() {
        Some(s) => {
            let old_loop = la[s as int].loop_view();
            &&& same_except(la, lb, s as int)
            &&& lb[s as int].id_view() == la[s as int].id_view()
            &&& lb[s as int].info_view() == la[s as int].info_view()
            &&& if old_loop.len() > 0 && old_loop[0] == i {
                &&& b.selected_view() is None
                &&& lb[s as int].loop_view() == old_loop
                &&& lb[s as int].closed_view()
            } else {
                &&& b.selected_view() == Some(s)
                &&& lb[s as int].loop_view() == old_loop.push(i as usize)
                &&& !lb[s as int].closed_view()
            }
        },
        None => if a.category_view() < a.types_view().len() {
            &&& lb.len() == la.len() + 1
            &&& lb.take(la.len() as int) == la
            &&& fresh_layer(
                lb[la.len() as int],
                la.len() as int,
                a.types_view()[a.category_view() as int],
                i,
            )
            &&& b.selected_view() == Some(la.len() as usize)
        } else {
            &&& lb == la
            &&& b.selected_view() is None
        },
    }
}

/// The category, the categories and the image stay as they were.
pub open spec fn same_settings(a: ImageProcessor, b: ImageProcessor) -> bool {
    &&& b.category_view() == a.category_view()
    &&& b.types_view() == a.types_view()
    &&& b.image_view() == a.image_view()
}

/// The pool points moved by `shift`.
pub open spec fn shifted_pool(pool: Seq<(i16, i16)>, shift: (int, int)) -> Seq<Vec2> {
    Seq::new(
        pool.len(),
        |k: int| Vec2 { x: (pool[k].0 + shift.0) as i64, y: (pool[k].1 + shift.1) as i64 },
    )
}

/// The shift from centred coordinates to image pixels: half the resolution,
/// rounded down.
pub open spec fn image_shift(resolution: (u32, u32)) -> (int, int) {
    (resolution.0 as int / 2, resolution.1 as int / 2)
}

/// The file name of `path` without its last extension; empty when the name
/// has no extension.
pub open spec fn base_filename(path: Seq<char>) -> Seq<char> {
    let filename = after_last(path, '/');
    let dot = last_pos(filename, '.');
    if dot < 0 {
        Seq::empty()
    } else {
        filename.subrange(0, dot)
    }
}

/// What `add_point(node)` makes of the workspace `a`.
pub open spec fn add_point_post(a: ImageProcessor, b: ImageProcessor, node: (i16, i16)) -> bool {
    &&& b.wf()
    &&& b.pool_view() == a.pool_view().push(node)
    &&& same_settings(a, b)
    &&& point_added(a, b, a.pool_view().len() as int)
}

/// What `select_existing_vertex(index)` makes of the workspace `a`; an index
/// outside the pool changes nothing.
pub open spec fn select_post(a: ImageProcessor, b: ImageProcessor, index: usize) -> bool {
    &&& b.wf()
    &&& b.pool_view() == a.pool_view()
    &&& same_settings(a, b)
    &&& if index < a.pool_view().len() {
        point_added(a, b, index as int)
    } else {
        b.layers_view() == a.layers_view() && b.selected_view() == a.selected_view()
    }
}

proof fn lemma_pool_push_keeps_layer(pool: Seq<(i16, i16)>, p: (i16, i16), l: UiLayer)
    requires
        layer_ok(pool, l),
    ensures
        layer_ok(pool.push(p), l),
{
    assert(loop_points(pool.push(p), l.loop_view()) =~= loop_points(pool, l.loop_view()));
}

/// Whether some layer's boundary holds pool index `i`.
fn is_referenced(layers: &Vec<UiLayer>, i: usize) -> (r: bool)
    ensures
        r == referenced(layers@, i as int),
{
    let n = layers.len();
    for l in 0..n
        invariant
            n == layers@.len(),
            forall|ll: int, k: int|
                0 <= ll < l && 0 <= k < layers@[ll].loop_view().len() ==> #[trigger] layers@[ll].loop_view()[k]
                    != i,
    {
        let indices = layers[l].indices();
        let m = indices.len();
        for k in 0..m
            invariant
                m == indices@.len(),
                n == layers@.len(),
                l < n,
                indices@ == layers@[l as int].loop_view(),
                forall|kk: int| 0 <= kk < k ==> indices@[kk] != i,
        {
            if indices[k] == i {
                assert(layers@[l as int].loop_view()[k as int] == i);
                return true;
            }
        }
    }
    false
}

/// `point_added` survives a change of the selected layer's triangles alone.
proof fn lemma_point_added_refresh(a: ImageProcessor, b: ImageProcessor, c: ImageProcessor, i: int)
    requires
        point_added(a, b, i),
        c.selected_view() == b.selected_view(),
        same_except(b.layers_view(), c.layers_view(), b.selected_int()),
        b.selected_view() matches Some(s) ==> {
            let (x, y) = (b.layers_view()[s as int], c.layers_view()[s as int]);
            &&& y.loop_view() == x.loop_view()
            &&& y.closed_view() == x.closed_view()
            &&& y.id_view() == x.id_view()
            &&& y.info_view() == x.info_view()
        },
    ensures
        point_added(a, c, i),
{
    let (la, lb, lc) = (a.layers_view(), b.layers_view(), c.layers_view());
    match a.selected_view() {
        Some(s) => {
            if b.selected_view() is None {
                assert(lc =~= lb);
            }
        },
        None => {
            if a.category_view() < a.types_view().len() {
                assert(lc.take(la.len() as int) =~= lb.take(la.len() as int));
            } else {
                assert(lc =~= lb);
            }
        },
    }
}

/// The referenced indices below `n` are below `n`.
proof fn lemma_referenced_below(layers: Seq<UiLayer>, n: int)
    ensures
        forall|j: int|
            0 <= j < referenced_upto(layers, n).len() ==> #[trigger] referenced_upto(layers, n)[j] < n,
    decreases n,
{
    if n > 0 {
        lemma_referenced_below(layers, n - 1);
        let below = referenced_upto(layers, n - 1);
        let all = referenced_upto(layers, n);
        assert forall|j: int| 0 <= j < all.len() implies #[trigger] all[j] < n by {
            if j < below.len() {
                assert(all[j] == below[j]);
            }
        }
    }
}

impl ImageProcessor {
    pub closed spec fn pool_view(&self) -> Seq<(i16, i16)> {
        self.vertices@
    }

    pub closed spec fn layers_view(&self) -> Seq<UiLayer> {
        self.layers@
    }

    pub closed spec fn selected_view(&self) -> Option<usize> {
        self.selected_layer_id
    }

    /// The category index for new layers.
    pub closed spec fn category_view(&self) -> usize {
        self.selected_layer_type
    }

    pub closed spec fn types_view(&self) -> Seq<LayerInfo> {
        self.layer_types@
    }

    pub closed spec fn nodes_view(&self) -> Seq<usize> {
        self.nodes@
    }

    pub closed spec fn image_view(&self) -> (Seq<char>, (u32, u32)) {
        (self.image_info.filename@, self.image_info.resolution)
    }

    /// The pool fits in memory, layer ids are their positions, every boundary lies in the pool, the
    /// selected layer exists and is open, and category ids count from one.
    pub closed spec fn core_ok(&self) -> bool {
        &&& self.vertices@.len() <= usize::MAX
        &&& self.total_layer_count == self.layers@.len()
        &&& forall|k: int| 0 <= k < self.layers@.len() ==> #[trigger] self.layers@[k].id_view() == k
        &&& forall|k: int|
            0 <= k < self.layers@.len() ==> indices_in_pool(
                self.vertices@.len() as int,
                #[trigger] self.layers@[k].loop_view(),
            )
        &&& self.selected_layer_id matches Some(s) ==> s < self.layers@.len()
            && !self.layers@[s as int].closed_view()
        &&& forall|k: int|
            0 <= k < self.layer_types@.len() ==> #[trigger] self.layer_types@[k].id == k + 1
    }

    /// Every layer but the one at position `s` has a fresh triangle cache.
    pub closed spec fn caches_ok_except(&self, s: int) -> bool {
        forall|k: int|
            0 <= k < self.layers@.len() && k != s ==> layer_ok(self.vertices@, #[trigger] self.layers@[k])
    }

    /// Position of the selected layer, or -1.
    pub open spec fn selected_int(&self) -> int {
        match self.selected_view() {
            Some(s) => s as int,
            None => -1,
        }
    }

    /// The layer counter matches the layer list.
    pub closed spec fn counter_ok(&self) -> bool {
        self.total_layer_count == self.layers@.len()
    }

    /// The workspace invariant: the pool fits in memory; layer ids are their
    /// positions; every boundary lies in the pool and every triangle cache is
    /// the triangulation of its boundary; the selected layer exists and is
    /// open; category ids count from one; and the active points are exactly
    /// the referenced pool indices, in increasing order.
    pub open spec fn wf(&self) -> bool {
        &&& self.counter_ok()
        &&& self.pool_view().len() <= usize::MAX
        &&& forall|k: int|
            0 <= k < self.layers_view().len() ==> #[trigger] self.layers_view()[k].id_view() == k
        &&& forall|k: int|
            0 <= k < self.layers_view().len() ==> layer_ok(
                self.pool_view(),
                #[trigger] self.layers_view()[k],
            )
        &&& self.selected_view() matches Some(s) ==> s < self.layers_view().len()
            && !self.layers_view()[s as int].closed_view()
        &&& forall|k: int|
            0 <= k < self.types_view().len() ==> #[trigger] self.types_view()[k].id == k + 1
        &&& self.nodes_view() == referenced_upto(self.layers_view(), self.pool_view().len() as int)
    }

    proof fn lemma_wf_parts(&self)
        ensures
            self.wf() <==> (self.core_ok() && self.caches_ok_except(-1) && self.nodes@
                == referenced_upto(self.layers@, self.vertices@.len() as int)),
    {
        let lay = self.layers@;
        assert(self.layers_view() == lay);
        assert(self.pool_view() == self.vertices@);
        assert(self.types_view() == self.layer_types@);
        assert(self.selected_view() == self.selected_layer_id);
        assert(self.nodes_view() == self.nodes@);
        if self.core_ok() && self.caches_ok_except(-1) {
            assert forall|k: int| 0 <= k < lay.len() implies layer_ok(
                self.vertices@,
                #[trigger] lay[k],
            ) by {
                assert(indices_in_pool(self.vertices@.len() as int, lay[k].loop_view()));
            }
            assert forall|k: int| 0 <= k < lay.len() implies #[trigger] lay[k].id_view() == k by {
            }
            assert forall|k: int| 0 <= k < self.layer_types@.len() implies #[trigger] self.layer_types@[k].id == k + 1 by {
            }
        }
        if self.wf() {
            assert forall|k: int| 0 <= k < lay.len() implies indices_in_pool(
                self.vertices@.len() as int,
                #[trigger] lay[k].loop_view(),
            ) by {
                assert(layer_ok(self.vertices@, lay[k]));
            }
            assert forall|k: int| 0 <= k < lay.len() implies #[trigger] lay[k].id_view() == k by {
                assert(self.layers_view()[k].id_view() == k);
            }
            assert forall|k: int| 0 <= k < lay.len() && k != -1 implies layer_ok(
                self.vertices@,
                #[trigger] lay[k],
            ) by {
                assert(layer_ok(self.pool_view(), self.layers_view()[k]));
            }
            assert forall|k: int| 0 <= k < self.layer_types@.len() implies #[trigger] self.layer_types@[k].id == k + 1 by {
                assert(self.types_view()[k].id == k + 1);
            }
            assert(self.core_ok());
            assert(self.caches_ok_except(-1));
        }
    }

    /// A workspace for the image `filename`, with the categories given in
    /// order; category ids count from one.
    pub fn new(filename: &str, resolution: (u32, u32), layer_types: &[(String, [u8; 4])]) -> (r:
        Self)
        ensures
            r.wf(),
            r.pool_view().len() == 0,
            r.nodes_view().len() == 0,
            r.layers_view().len() == 0,
            r.selected_view() is None,
            r.category_view() == 0,
            r.image_view() == (filename@, resolution),
            r.types_view().len() == layer_types@.len(),
            forall|k: int|
                0 <= k < layer_types@.len() ==> (#[trigger] r.types_view()[k]).layer_type@
                    == layer_types@[k].0@ && r.types_view()[k].color == layer_types@[k].1
                    && r.types_view()[k].id == k + 1,
    {
        let layer_types = Self::generate_layer_types(layer_types);
        Self {
            layer_types,
            image_info: ImageInfo { filename: filename.to_owned(), resolution },
            selected_layer_type: 0,
            selected_layer_id: None,
            layers: vec![],
            vertices: vec![],
            nodes: vec![],
            total_layer_count: 0,
        }
    }

    fn generate_layer_types(types: &[(String, [u8; 4])]) -> (r: Vec<LayerInfo>)
        ensures
            r@.len() == types@.len(),
            forall|k: int|
                0 <= k < types@.len() ==> (#[trigger] r@[k]).layer_type@ == types@[k].0@ && r@[k].color
                    == types@[k].1 && r@[k].id == k + 1,
    {
        let mut out: Vec<LayerInfo> = Vec::new();
        let n = types.len();
        for i in 0..n
            invariant
                n == types@.len(),
                out@.len() == i,
                forall|k: int|
                    0 <= k < i ==> (#[trigger] out@[k]).layer_type@ == types@[k].0@ && out@[k].color
                        == types@[k].1 && out@[k].id == k + 1,
        {
            let (name, color) = &types[i];
            out.push(LayerInfo { layer_type: name.clone(), color: *color, id: i + 1 });
        }
        out
    }

    pub fn layer_types(&self) -> (r: &Vec<LayerInfo>)
        ensures
            r@ == self.types_view(),
    {
        &self.layer_types
    }

    pub fn layers(&self) -> (r: &Vec<UiLayer>)
        ensures
            r@ == self.layers_view(),
    {
        &self.layers
    }

    /// The active points: the pool indices that some layer references.
    pub fn nodes(&self) -> (r: &Vec<usize>)
        ensures
            r@ == self.nodes_view(),
    {
        &self.nodes
    }

    /// The point pool.
    pub fn vertices(&self) -> (r: &Vec<(i16, i16)>)
        ensures
            r@ == self.pool_view(),
    {
        &self.vertices
    }

    pub fn image_info(&self) -> (r: &ImageInfo)
        ensures
            (r.filename@, r.resolution) == self.image_view(),
    {
        &self.image_info
    }

    /// Position of the selected layer in the layer list.
    fn selected_position(&self) -> (r: Option<usize>)
        requires
            self.core_ok(),
        ensures
            r == self.selected_view(),
    {
        match self.selected_layer_id {
            Some(selected_layer_id) => {
                let n = self.layers.len();
                for k in 0..n
                    invariant
                        n == self.layers@.len(),
                        self.core_ok(),
                        self.selected_layer_id == Some(selected_layer_id),
                        k <= selected_layer_id,
                {
                    if self.layers[k].id() == selected_layer_id {
                        return Some(k);
                    }
                }
                None
            },
            None => None,
        }
    }

    /// The selected layer, if any.
    pub fn selected_layer(&self) -> (r: Option<&UiLayer>)
        requires
            self.wf(),
        ensures
            r is None <==> self.selected_view() is None,
            r matches Some(l) ==> self.selected_view() matches Some(s) && *l
                == self.layers_view()[s as int],
    {
        proof {
            self.lemma_wf_parts();
        }
        match self.selected_position() {
            Some(k) => Some(&self.layers[k]),
            None => None,
        }
    }

    /// The category index for new layers.
    pub fn selected_layer_type(&self) -> (r: usize)
        ensures
            r == self.category_view(),
    {
        self.selected_layer_type
    }

    /// Chooses the category of the layers created from now on.
    pub fn set_active_category(&mut self, category_index: usize)
        requires
            old(self).wf(),
        ensures
            final(self).wf(),
            final(self).category_view() == category_index,
            final(self).pool_view() == old(self).pool_view(),
            final(self).layers_view() == old(self).layers_view(),
            final(self).selected_view() == old(self).selected_view(),
            final(self).types_view() == old(self).types_view(),
            final(self).image_view() == old(self).image_view(),
    {
        proof {
            old(self).lemma_wf_parts();
        }
        self.selected_layer_type = category_index;
        proof {
            self.lemma_wf_parts();
        }
    }

    /// Opens an empty layer of the current category and selects it; does
    /// nothing when the category does not exist.
    fn new_layer(&mut self)
        requires
            old(self).core_ok(),
            old(self).caches_ok_except(-1),
            old(self).selected_layer_id is None || old(self).layers@[old(self).selected_layer_id->0 as int].closed_view(),
        ensures
            final(self).core_ok(),
            final(self).caches_ok_except(-1),
            final(self).vertices == old(self).vertices,
            final(self).nodes == old(self).nodes,
            final(self).layer_types == old(self).layer_types,
            final(self).selected_layer_type == old(self).selected_layer_type,
            final(self).image_info == old(self).image_info,
            old(self).selected_layer_type < old(self).layer_types@.len() ==> {
                let info = old(self).layer_types@[old(self).selected_layer_type as int];
                let id = old(self).layers@.len();
                &&& final(self).layers@.len() == id + 1
                &&& final(self).layers@.take(id as int) == old(self).layers@
                &&& final(self).layers@[id as int].loop_view() == Seq::<usize>::empty()
                &&& final(self).layers@[id as int].triangles_view() == Seq::<[usize; 3]>::empty()
                &&& !final(self).layers@[id as int].closed_view()
                &&& final(self).layers@[id as int].id_view() == id
                &&& final(self).layers@[id as int].info_view() == (
                    info.layer_type@,
                    info.color,
                    info.id,
                )
                &&& final(self).selected_layer_id == Some(id as usize)
            },
            old(self).selected_layer_type >= old(self).layer_types@.len() ==> final(self).layers
                == old(self).layers && final(self).selected_layer_id == old(
                self,
            ).selected_layer_id,
    {
        if self.selected_layer_type < self.layer_types.len() {
            let layer_type = &self.layer_types[self.selected_layer_type];
            let id = self.layers.len();
            if let Ok(new_layer) = UiLayer::new(id, layer_type.duplicate()) {
                self.layers.push(new_layer);
                self.total_layer_count = self.layers.len();
                self.selected_layer_id = Some(id);
                assert(self.layers@.take(id as int) =~= old(self).layers@);
                proof {
                    let lay = self.layers@;
                    assert(lay[id as int].loop_view() == Seq::<usize>::empty());
                    assert(loop_points(self.vertices@, Seq::<usize>::empty()).len() == 0);
                    assert forall|k: int| 0 <= k < lay.len() implies #[trigger] lay[k].id_view() == k by {
                        if k < id {
                            assert(lay[k] == old(self).layers@[k]);
                        }
                    }
                    assert forall|k: int| 0 <= k < lay.len() implies indices_in_pool(
                        self.vertices@.len() as int,
                        #[trigger] lay[k].loop_view(),
                    ) by {
                        if k < id {
                            assert(lay[k] == old(self).layers@[k]);
                        }
                    }
                    assert forall|k: int| 0 <= k < lay.len() implies layer_ok(self.vertices@, #[trigger] lay[k]) by {
                        if k < id {
                            assert(lay[k] == old(self).layers@[k]);
                        }
                    }
                }
            }
        }
    }

    /// Refreshes the triangle cache of the layer at position `s`.
    fn refresh_layer(&mut self, s: usize)
        requires
            s < old(self).layers@.len(),
            indices_in_pool(old(self).vertices@.len() as int, old(self).layers@[s as int].loop_view()),
        ensures
            same_except(old(self).layers@, final(self).layers@, s as int),
            final(self).layers@[s as int].loop_view() == old(self).layers@[s as int].loop_view(),
            final(self).layers@[s as int].closed_view() == old(self).layers@[s as int].closed_view(),
            final(self).layers@[s as int].id_view() == old(self).layers@[s as int].id_view(),
            final(self).layers@[s as int].info_view() == old(self).layers@[s as int].info_view(),
            final(self).layers@[s as int].triangles_view() == triangulation(
                old(self).vertices@,
                old(self).layers@[s as int].loop_view(),
            ),
            final(self).vertices == old(self).vertices,
            final(self).nodes == old(self).nodes,
            final(self).layer_types == old(self).layer_types,
            final(self).selected_layer_type == old(self).selected_layer_type,
            final(self).selected_layer_id == old(self).selected_layer_id,
            final(self).total_layer_count == old(self).total_layer_count,
            final(self).image_info == old(self).image_info,
    {
        self.layers[s].update(&self.vertices);
    }

    /// Adds pool index `point` to the layer at position `s`.
    fn extend_layer(&mut self, s: usize, point: usize)
        requires
            s < old(self).layers@.len(),
        ensures
            same_except(old(self).layers@, final(self).layers@, s as int),
            ({
                let (a, b) = (old(self).layers@[s as int], final(self).layers@[s as int]);
                &&& b.id_view() == a.id_view()
                &&& b.info_view() == a.info_view()
                &&& b.triangles_view() == a.triangles_view()
                &&& a.closed_view() ==> b.loop_view() == a.loop_view() && b.closed_view()
                &&& !a.closed_view() ==> if a.loop_view().len() > 0 && a.loop_view()[0] == point {
                    b.closed_view() && b.loop_view() == a.loop_view()
                } else {
                    !b.closed_view() && b.loop_view() == a.loop_view().push(point)
                }
            }),
            final(self).vertices == old(self).vertices,
            final(self).nodes == old(self).nodes,
            final(self).layer_types == old(self).layer_types,
            final(self).selected_layer_type == old(self).selected_layer_type,
            final(self).selected_layer_id == old(self).selected_layer_id,
            final(self).total_layer_count == old(self).total_layer_count,
            final(self).image_info == old(self).image_info,
    {
        self.layers[s].add_node(point);
    }

    /// Adds a new point to the pool and to the selected layer, opening a
    /// layer first when none is selected.
    fn on_new_node(&mut self, node: (i16, i16)) -> (r: Option<()>)
        requires
            old(self).wf(),
        ensures
            final(self).core_ok(),
            final(self).caches_ok_except(final(self).selected_int()),
            final(self).vertices@ == old(self).vertices@.push(node),
            same_settings(*old(self), *final(self)),
            point_added(*old(self), *final(self), old(self).vertices@.len() as int),
    {
        proof {
            self.lemma_wf_parts();
        }
        let needs_layer = match self.selected_layer() {
            Some(layer) => layer.is_completed(),
            None => true,
        };
        if needs_layer {
            self.new_layer();
        }
        let ghost before = self.vertices@;
        self.vertices.push(node);
        proof {
            assert forall|k: int| 0 <= k < self.layers@.len() implies indices_in_pool(
                self.vertices@.len() as int,
                #[trigger] self.layers@[k].loop_view(),
            ) by {
                assert(indices_in_pool(before.len() as int, self.layers@[k].loop_view()));
            }
            assert forall|k: int|
                0 <= k < self.layers@.len() && k != self.selected_int() implies layer_ok(
                self.vertices@,
                #[trigger] self.layers@[k],
            ) by {
                assert(layer_ok(before, self.layers@[k]));
                lemma_pool_push_keeps_layer(before, node, self.layers@[k]);
            }
        }
        let new_node = self.vertices.len() - 1;
        match self.selected_position() {
            None => None,
            Some(s) => {
                let ghost la = self.layers@;
                let ghost pool = self.vertices@;
                assert(indices_in_pool(pool.len() as int, la[s as int].loop_view()));
                assert(indices_in_pool(before.len() as int, la[s as int].loop_view()));
                self.extend_layer(s, new_node);
                proof {
                    let lb = self.layers@;
                    let old_loop = la[s as int].loop_view();
                    if old_loop.len() > 0 {
                        assert(old_loop[0] < before.len());
                    }
                    assert(lb[s as int].loop_view() == old_loop.push(new_node));
                    assert forall|k: int| 0 <= k < lb.len() implies #[trigger] lb[k].id_view() == k by {
                        if k != s {
                            assert(lb[k] == la[k]);
                        }
                    }
                    assert forall|k: int| 0 <= k < lb.len() implies indices_in_pool(
                        pool.len() as int,
                        #[trigger] lb[k].loop_view(),
                    ) by {
                        if k != s {
                            assert(lb[k] == la[k]);
                        } else {
                            assert forall|j: int| 0 <= j < lb[k].loop_view().len() implies #[trigger] lb[k].loop_view()[j]
                                < pool.len() by {
                                if j < old_loop.len() {
                                    assert(old_loop[j] < pool.len());
                                }
                            }
                        }
                    }
                    assert forall|k: int| 0 <= k < lb.len() && k != s implies layer_ok(
                        pool,
                        #[trigger] lb[k],
                    ) by {
                        assert(lb[k] == la[k]);
                    }
                    if old(self).selected_layer_id is None {
                        let n0 = old(self).layers@.len() as int;
                        assert(lb.take(n0) =~= la.take(n0));
                        assert(lb[n0].loop_view() =~= seq![new_node]);
                    }
                }
                Some(())
            },
        }
    }

    /// Refreshes the triangle cache of the selected layer.
    fn update_selected_layer(&mut self) -> (r: Option<()>)
        requires
            old(self).core_ok(),
            old(self).caches_ok_except(old(self).selected_int()),
        ensures
            final(self).core_ok(),
            final(self).caches_ok_except(-1),
            final(self).vertices == old(self).vertices,
            final(self).selected_layer_id == old(self).selected_layer_id,
            same_settings(*old(self), *final(self)),
            same_except(old(self).layers@, final(self).layers@, old(self).selected_int()),
            old(self).selected_view() matches Some(s) ==> {
                let (a, b) = (old(self).layers@[s as int], final(self).layers@[s as int]);
                &&& b.loop_view() == a.loop_view()
                &&& b.closed_view() == a.closed_view()
                &&& b.id_view() == a.id_view()
                &&& b.info_view() == a.info_view()
            },
    {
        match self.selected_position() {
            None => None,
            Some(s) => {
                self.refresh_layer(s);
                proof {
                    let (la, lb) = (old(self).layers@, self.layers@);
                    assert forall|k: int| 0 <= k < lb.len() implies #[trigger] lb[k].id_view() == k by {
                        if k != s {
                            assert(lb[k] == la[k]);
                        }
                    }
                    assert forall|k: int| 0 <= k < lb.len() implies indices_in_pool(
                        self.vertices@.len() as int,
                        #[trigger] lb[k].loop_view(),
                    ) by {
                        if k != s {
                            assert(lb[k] == la[k]);
                        } else {
                            assert(indices_in_pool(self.vertices@.len() as int, la[k].loop_view()));
                        }
                    }
                    assert forall|k: int| 0 <= k < lb.len() implies layer_ok(self.vertices@, #[trigger] lb[k]) by {
                        if k != s {
                            assert(lb[k] == la[k]);
                        } else {
                            assert(indices_in_pool(self.vertices@.len() as int, la[k].loop_view()));
                        }
                    }
                }
                Some(())
            },
        }
    }

    /// Recomputes the active points from the layers.
    fn prune_nodes(&mut self)
        requires
            old(self).core_ok(),
            old(self).caches_ok_except(-1),
        ensures
            final(self).wf(),
            final(self).vertices == old(self).vertices,
            final(self).layers == old(self).layers,
            final(self).selected_layer_id == old(self).selected_layer_id,
            same_settings(*old(self), *final(self)),
    {
        self.nodes.clear();
        let n = self.vertices.len();
        for i in 0..n
            invariant
                n == self.vertices@.len(),
                self.vertices == old(self).vertices,
                self.layers == old(self).layers,
                self.selected_layer_id == old(self).selected_layer_id,
                self.selected_layer_type == old(self).selected_layer_type,
                self.layer_types == old(self).layer_types,
                self.image_info == old(self).image_info,
                self.total_layer_count == old(self).total_layer_count,
                self.nodes@ == referenced_upto(self.layers@, i as int),
        {
            if is_referenced(&self.layers, i) {
                self.nodes.push(i);
            }
        }
        proof {
            self.lemma_wf_parts();
        }
    }

    /// Adds the existing pool index `node_index` to the selected layer,
    /// opening a layer first when none is selected; deselects the layer when
    /// this closes it.
    fn on_select_node(&mut self, node_index: usize) -> (r: Option<()>)
        requires
            old(self).wf(),
            node_index < old(self).vertices@.len(),
        ensures
            final(self).core_ok(),
            final(self).caches_ok_except(final(self).selected_int()),
            final(self).vertices == old(self).vertices,
            same_settings(*old(self), *final(self)),
            point_added(*old(self), *final(self), node_index as int),
    {
        proof {
            self.lemma_wf_parts();
        }
        match self.selected_position() {
            Some(s) => {
                let ghost la = self.layers@;
                assert(indices_in_pool(self.vertices@.len() as int, la[s as int].loop_view()));
                self.extend_layer(s, node_index);
                let closed = self.layers[s].is_completed();
                if closed {
                    self.selected_layer_id = None;
                }
                proof {
                    let lb = self.layers@;
                    let pool = self.vertices@;
                    let old_loop = la[s as int].loop_view();
                    assert forall|k: int| 0 <= k < lb.len() implies #[trigger] lb[k].id_view() == k by {
                        if k != s {
                            assert(lb[k] == la[k]);
                        }
                    }
                    assert forall|k: int| 0 <= k < lb.len() implies indices_in_pool(
                        pool.len() as int,
                        #[trigger] lb[k].loop_view(),
                    ) by {
                        if k != s {
                            assert(lb[k] == la[k]);
                        } else {
                            assert forall|j: int| 0 <= j < lb[k].loop_view().len() implies #[trigger] lb[k].loop_view()[j]
                                < pool.len() by {
                                if j < old_loop.len() {
                                    assert(old_loop[j] < pool.len());
                                }
                            }
                        }
                    }
                    assert forall|k: int|
                        0 <= k < lb.len() && k != self.selected_int() implies layer_ok(
                        pool,
                        #[trigger] lb[k],
                    ) by {
                        if k != s {
                            assert(lb[k] == la[k]);
                        } else {
                            assert(layer_ok(pool, la[k]));
                        }
                    }
                }
                Some(())
            },
            None => {
                self.new_layer();
                let ghost la = self.layers@;
                match self.selected_position() {
                    Some(s) => {
                        self.extend_layer(s, node_index);
                        proof {
                            let lb = self.layers@;
                            let pool = self.vertices@;
                            let n0 = old(self).layers@.len() as int;
                            assert(s == n0);
                            assert(lb[s as int].loop_view() =~= seq![node_index]);
                            assert(lb.take(n0) =~= la.take(n0));
                            assert forall|k: int| 0 <= k < lb.len() implies #[trigger] lb[k].id_view() == k by {
                                if k != s {
                                    assert(lb[k] == la[k]);
                                }
                            }
                            assert forall|k: int| 0 <= k < lb.len() implies indices_in_pool(
                                pool.len() as int,
                                #[trigger] lb[k].loop_view(),
                            ) by {
                                if k != s {
                                    assert(lb[k] == la[k]);
                                }
                            }
                            assert forall|k: int| 0 <= k < lb.len() && k != s implies layer_ok(
                                pool,
                                #[trigger] lb[k],
                            ) by {
                                assert(lb[k] == la[k]);
                            }
                        }
                        Some(())
                    },
                    None => None,
                }
            },
        }
    }

    /// Adds a new point at `node` to the pool and to the selected layer
    /// (opening a layer of the current category when none is selected), then
    /// refreshes that layer's triangles and the active points.
    pub fn add_point(&mut self, node: (i16, i16))
        requires
            old(self).wf(),
        ensures
            add_point_post(*old(self), *final(self), node),
    {
        let _ = self.on_new_node(node);
        let ghost mid = *self;
        let _ = self.update_selected_layer();
        proof {
            lemma_point_added_refresh(*old(self), mid, *self, old(self).vertices@.len() as int);
        }
        let ghost after = *self;
        self.prune_nodes();
        proof {
            lemma_point_added_refresh(*old(self), after, *self, old(self).vertices@.len() as int);
        }
    }

    /// Adds the existing pool point `index` to the selected layer (opening a
    /// layer of the current category when none is selected); when `index` is
    /// the layer's first point the layer closes and is deselected. Then
    /// refreshes the triangles and the active points. An index outside the
    /// pool is ignored.
    pub fn select_existing_vertex(&mut self, index: usize)
        requires
            old(self).wf(),
        ensures
            select_post(*old(self), *final(self), index),
    {
        if index >= self.vertices.len() {
            return ;
        }
        let _ = self.on_select_node(index);
        let ghost mid = *self;
        let _ = self.update_selected_layer();
        proof {
            lemma_point_added_refresh(*old(self), mid, *self, index as int);
        }
        let ghost after = *self;
        self.prune_nodes();
        proof {
            lemma_point_added_refresh(*old(self), after, *self, index as int);
        }
    }

    /// One snapshot per layer, in layer order, over the pool points moved to
    /// image pixel space (origin at a corner instead of the centre).
    pub fn create_segmentations(&self) -> (r: Vec<Segmentation>)
        requires
            self.wf(),
        ensures
            r@.len() == self.layers_view().len(),
            forall|k: int|
                0 <= k < r@.len() ==> snapshot_of(
                    #[trigger] r@[k],
                    self.layers_view()[k],
                    shifted_pool(self.pool_view(), image_shift(self.image_view().1)),
                ) && r@[k].wf(),
    {
        proof {
            self.lemma_wf_parts();
        }
        let half_width = (self.image_info.resolution.0 / 2) as i64;
        let half_height = (self.image_info.resolution.1 / 2) as i64;
        let ghost shift = image_shift(self.image_info.resolution);
        let ghost target = shifted_pool(self.vertices@, shift);
        let n = self.vertices.len();
        let mut normalized_vertices: Vec<Vec2> = Vec::new();
        for k in 0..n
            invariant
                n == self.vertices@.len(),
                half_width == shift.0,
                half_height == shift.1,
                0 <= shift.0 <= 0x8000_0000,
                0 <= shift.1 <= 0x8000_0000,
                target == shifted_pool(self.vertices@, shift),
                normalized_vertices@ =~= target.take(k as int),
        {
            let v = self.vertices[k];
            normalized_vertices.push(Vec2::new(v.0 as i64 + half_width, v.1 as i64 + half_height));
        }
        assert(normalized_vertices@ =~= target);
        assert(near_points(target));
        let m = self.layers.len();
        let mut out: Vec<Segmentation> = Vec::new();
        for k in 0..m
            invariant
                m == self.layers@.len(),
                self.wf(),
                normalized_vertices@ == target,
                target.len() == self.vertices@.len(),
                near_points(target),
                out@.len() == k,
                forall|j: int|
                    0 <= j < k ==> snapshot_of(#[trigger] out@[j], self.layers@[j], target)
                        && out@[j].wf(),
        {
            let layer = &self.layers[k];
            proof {
                assert(layer_ok(self.vertices@, self.layers@[k as int]));
                lemma_triangulation_in_pool(self.vertices@, layer.loop_view());
            }
            out.push(Segmentation::from_layer(layer, &normalized_vertices));
        }
        out
    }

    /// Applies one edit; `Save` changes nothing and hands back the snapshots.
    pub fn handle_event(&mut self, event: EditorEvent) -> (r: Option<Vec<Segmentation>>)
        requires
            old(self).wf(),
        ensures
            final(self).wf(),
            match event {
                EditorEvent::NewPoint(node) => r is None && add_point_post(
                    *old(self),
                    *final(self),
                    node,
                ),
                EditorEvent::PointSelected(index) => r is None && select_post(
                    *old(self),
                    *final(self),
                    index,
                ),
                EditorEvent::NewLayer(category) => r is None && final(self).category_view()
                    == category && final(self).types_view() == old(self).types_view()
                    && final(self).image_view() == old(self).image_view()
                    && final(self).pool_view() == old(self).pool_view()
                    && final(self).layers_view() == old(self).layers_view()
                    && final(self).selected_view() == old(self).selected_view(),
                EditorEvent::Save => *final(self) == *old(self) && (r matches Some(v) && v@.len()
                    == old(self).layers_view().len() && forall|k: int|
                    0 <= k < v@.len() ==> snapshot_of(
                        #[trigger] v@[k],
                        old(self).layers_view()[k],
                        shifted_pool(old(self).pool_view(), image_shift(old(self).image_view().1)),
                    ) && v@[k].wf()),
            },
    {
        match event {
            EditorEvent::NewPoint(node) => {
                self.add_point(node);
                None
            },
            EditorEvent::PointSelected(index) => {
                self.select_existing_vertex(index);
                None
            },
            EditorEvent::NewLayer(category) => {
                self.set_active_category(category);
                None
            },
            EditorEvent::Save => Some(self.create_segmentations()),
        }
    }

    /// The file name of `filepath` without its last extension.
    pub fn extract_base_filename(filepath: &str) -> (r: Option<String>)
        requires
            filepath@.len() < 0x8000_0000_0000_0000,
        ensures
            r matches Some(name) && name@ == base_filename(filepath@),
    {
        let slash = find_last(filepath, '/');
        proof {
            lemma_last_pos_bounds(filepath@, '/');
        }
        let len = filepath.unicode_len();
        let filename = filepath.substring_char((slash + 1) as usize, len);
        let dot = find_last(filename, '.');
        proof {
            lemma_last_pos_bounds(filename@, '.');
        }
        if dot < 0 {
            Some(String::new())
        } else {
            Some(filename.substring_char(0, dot as usize).to_owned())
        }
    }

    /// The active points with their coordinates: the pool points that some
    /// layer references, in pool order.
    pub fn active_points(&self) -> (r: Vec<(usize, (i16, i16))>)
        requires
            self.wf(),
        ensures
            r@.len() == self.nodes_view().len(),
            forall|k: int|
                0 <= k < r@.len() ==> #[trigger] r@[k] == (
                    self.nodes_view()[k],
                    self.pool_view()[self.nodes_view()[k] as int],
                ),
    {
        proof {
            self.lemma_wf_parts();
        }
        proof {
            lemma_referenced_below(self.layers@, self.vertices@.len() as int);
        }
        let mut out: Vec<(usize, (i16, i16))> = Vec::new();
        let n = self.nodes.len();
        for k in 0..n
            invariant
                n == self.nodes@.len(),
                forall|j: int| 0 <= j < n ==> #[trigger] self.nodes@[j] < self.vertices@.len(),
                out@.len() == k,
                forall|j: int|
                    0 <= j < k ==> #[trigger] out@[j] == (self.nodes@[j], self.vertices@[self.nodes@[j] as int]),
        {
            let i = self.nodes[k];
            out.push((i, self.vertices[i]));
        }
        out
    }
}

/// With no layer selected and a valid category, adding a point and then
/// selecting that same point again closes the layer the point opened, and
/// leaves no layer selected.
pub proof fn lemma_add_then_select_closes(
    a: ImageProcessor,
    b: ImageProcessor,
    c: ImageProcessor,
    node: (i16, i16),
)
    requires
        a.wf(),
        a.selected_view() is None,
        a.category_view() < a.types_view().len(),
        add_point_post(a, b, node),
        select_post(b, c, (b.pool_view().len() - 1) as usize),
    ensures
        c.layers_view()[a.layers_view().len() as int].closed_view(),
        c.layers_view()[a.layers_view().len() as int].loop_view() == seq![a.pool_view().len() as usize],
        c.selected_view() is None,
{
    let n = a.layers_view().len() as int;
    assert(b.selected_view() == Some(n as usize));
    assert(point_added(a, b, a.pool_view().len() as int));
    assert(fresh_layer(b.layers_view()[n], n, a.types_view()[a.category_view() as int], a.pool_view().len() as int));
    let l = b.layers_view()[n].loop_view();
    assert(l == seq![a.pool_view().len() as usize]);
    assert(b.pool_view().len() == a.pool_view().len() + 1);
    assert(b.wf());
    assert(b.pool_view().len() <= usize::MAX);
    assert(l.len() == 1 && l[0] == a.pool_view().len());
}

/// Reading a snapshot's flattened outline back as the loop `0, 1, ...` of a
/// fresh pool and triangulating it gives as many triangles as the layer had.
pub proof fn lemma_outline_round_trip(ws: ImageProcessor, k: int, s: Segmentation)
    requires
        ws.wf(),
        0 <= k < ws.layers_view().len(),
        snapshot_of(
            s,
            ws.layers_view()[k],
            shifted_pool(ws.pool_view(), image_shift(ws.image_view().1)),
        ),
    ensures
        triangulate_points(fresh_loop((s.vertices@.len() / 2) as nat), outline_points(s.vertices@)).len()
            == ws.layers_view()[k].triangles_view().len(),
{
    let pool = ws.pool_view();
    let layer = ws.layers_view()[k];
    let indices = layer.loop_view();
    let shift = image_shift(ws.image_view().1);
    let shifted = shifted_pool(pool, shift);
    assert(layer_ok(pool, layer));
    lemma_flatten_loop_index(shifted, indices);
    let p = loop_points(pool, indices);
    let q = outline_points(s.vertices@);
    assert(translated(p, q, shift.0, shift.1)) by {
        assert forall|j: int| 0 <= j < p.len() implies (#[trigger] q[j]).x == p[j].x + shift.0 && q[j].y
            == p[j].y + shift.1 by {
            assert(indices[j] < pool.len());
            assert(s.vertices@[2 * j] == shifted[indices[j] as int].x);
            assert(s.vertices@[2 * j + 1] == shifted[indices[j] as int].y);
        }
    }
    lemma_triangulate_translated(indices, p, fresh_loop((s.vertices@.len() / 2) as nat), q, shift.0, shift.1);
}

/// A point event never removes or reorders layers, keeps every id, and
/// leaves every closed layer exactly as it was; ids increase along the list.
pub proof fn lemma_closed_layers_kept(a: ImageProcessor, b: ImageProcessor, i: int)
    requires
        a.wf(),
        b.wf(),
        point_added(a, b, i),
    ensures
        b.layers_view().len() >= a.layers_view().len(),
        forall|k: int|
            0 <= k < a.layers_view().len() ==> (#[trigger] b.layers_view()[k]).id_view()
                == a.layers_view()[k].id_view(),
        forall|k: int|
            0 <= k < a.layers_view().len() && a.layers_view()[k].closed_view() ==> #[trigger] b.layers_view()[k]
                == a.layers_view()[k],
        forall|j: int, k: int|
            0 <= j < k < b.layers_view().len() ==> #[trigger] b.layers_view()[j].id_view()
                < #[trigger] b.layers_view()[k].id_view(),
{
    let (la, lb) = (a.layers_view(), b.layers_view());
    if a.selected_view() is None && a.category_view() < a.types_view().len() {
        assert forall|k: int| 0 <= k < la.len() implies #[trigger] lb[k] == la[k] by {
            assert(lb.take(la.len() as int)[k] == lb[k]);
        }
    }
    assert forall|j: int, k: int| 0 <= j < k < lb.len() implies #[trigger] lb[j].id_view()
        < #[trigger] lb[k].id_view() by {
        assert(lb[j].id_view() == j && lb[k].id_view() == k);
    }
}

/// The pool that a flattened outline `x0, y0, x1, y1, ...` lists, when its
/// coordinates fit the pool's.
pub open spec fn outline_pool(flat: Seq<i64>) -> Seq<(i16, i16)> {
    Seq::new(flat.len() / 2, |k: int| (flat[2 * k] as i16, flat[2 * k + 1] as i16))
}

/// Where a snapshot's outline fits the pool's coordinates, loading it as a
/// fresh pool with the loop `0, 1, ...` and re-triangulating it (as
/// `UiLayer::update` does) gives as many triangles as the layer had.
pub proof fn lemma_outline_reloaded(ws: ImageProcessor, k: int, s: Segmentation)
    requires
        ws.wf(),
        0 <= k < ws.layers_view().len(),
        snapshot_of(
            s,
            ws.layers_view()[k],
            shifted_pool(ws.pool_view(), image_shift(ws.image_view().1)),
        ),
        s.vertices@.len() <= usize::MAX,
        forall|j: int| 0 <= j < s.vertices@.len() ==> i16::MIN <= #[trigger] s.vertices@[j] <= i16::MAX,
    ensures
        triangulation(outline_pool(s.vertices@), fresh_loop((s.vertices@.len() / 2) as nat)).len()
            == ws.layers_view()[k].triangles_view().len(),
{
    let flat = s.vertices@;
    let n = (flat.len() / 2) as nat;
    let pool = outline_pool(flat);
    let fresh = fresh_loop(n);
    assert(loop_points(pool, fresh) =~= outline_points(flat)) by {
        assert forall|j: int| 0 <= j < n implies #[trigger] loop_points(pool, fresh)[j] == outline_points(
            flat,
        )[j] by {
            assert(fresh[j] == j);
            assert(i16::MIN <= flat[2 * j] <= i16::MAX);
            assert(i16::MIN <= flat[2 * j + 1] <= i16::MAX);
        }
    }
    lemma_outline_round_trip(ws, k, s);
}

} // verus!
