use vstd::prelude::*;

verus! {

/// A vertex type that a renderer can upload.
pub trait Vertex {
    fn declare_layout() {
    }
}

/// How a renderer joins the indices of a buffer.
#[derive(Clone, Copy, Debug, PartialEq, Eq, Structural)]
pub enum MeshType {
    Triangles,
    Lines,
    LineStrip,
    Points,
}

/// A list of index groups of `T` indices each (three for triangles, two
/// for lines).
pub struct IndexBuffer<const T: usize> {
    pub indices: Vec<[u32; T]>,
}

/// A list of vertices.
pub struct VertexBuffer<T: Vertex> {
    pub vertices: Vec<T>,
}

impl<T: Vertex> VertexBuffer<T> {
    pub fn new(vertices: Vec<T>) -> (r: Self)
        ensures
            r.vertices@ == vertices@,
    {
        VertexBuffer { vertices }
    }

    /// The size of the vertices in bytes.
    pub fn size(&self) -> (r: usize)
        requires
            self.vertices@.len() * vstd::layout::size_of::<T>() <= usize::MAX,
        ensures
            r == self.vertices@.len() * vstd::layout::size_of::<T>(),
    {
        let one = core::mem::size_of::<T>();
        proof {
            if self.vertices@.len() > 0 {
                assert(one <= self.vertices@.len() * one) by (nonlinear_arith)
                    requires
                        self.vertices@.len() > 0,
                ;
            }
        }
        self.vertices.len() * one
    }
}

/// Triangle `i` of a ring of `res` quads, whose vertices alternate between
/// the inner and the outer circle: the first `res` triangles start on the
/// inner circle, the next `res` on the outer one.
pub open spec fn ring_triangle(res: int, i: int) -> [u32; 3] {
    let m = 2 * res;
    if i < res {
        [(2 * i) as u32, ((2 * i + 1) % m) as u32, ((2 * i + 2) % m) as u32]
    } else {
        let j = i - res;
        [((2 * j + 1) % m) as u32, ((2 * j + 2) % m) as u32, ((2 * j + 3) % m) as u32]
    }
}

/// The six indices of a quad whose corners are numbered 0 to 3, as two
/// triangles.
pub fn quad_ind() -> (r: Vec<u32>)
    ensures
        r@ == seq![0u32, 1u32, 2u32, 2u32, 3u32, 0u32],
{
    let r = vec![0, 1, 2, 2, 3, 0];
    assert(r@ =~= seq![0u32, 1u32, 2u32, 2u32, 3u32, 0u32]);
    r
}

/// The indices of the `2 * res` triangles of a ring of `res` quads, six per
/// quad: triangle `i` and triangle `res + i` of `ring_triangle` in turn.
pub fn ring_ind(res: u32) -> (r: Vec<u32>)
    requires
        2 * res + 1 <= u32::MAX,
    ensures
        r@.len() == 6 * res,
        forall|i: int, c: int|
            0 <= i < res && 0 <= c < 3 ==> r@[6 * i + c] == #[trigger] ring_triangle(res as int, i)[c]
                && r@[6 * i + 3 + c] == ring_triangle(res as int, i + res)[c],
{
    let m = res * 2;
    let mut out: Vec<u32> = Vec::new();
    for i in 0..res
        invariant
            m == 2 * res,
            2 * res + 1 <= u32::MAX,
            out@.len() == 6 * i,
            forall|j: int, c: int|
                0 <= j < i && 0 <= c < 3 ==> out@[6 * j + c] == #[trigger] ring_triangle(res as int, j)[c]
                    && out@[6 * j + 3 + c] == ring_triangle(res as int, j + res)[c],
    {
        let ghost before = out@;
        out.push((i * 2 + 0) % m);
        out.push((i * 2 + 1) % m);
        out.push((i * 2 + 2) % m);
        out.push((i * 2 + 1) % m);
        out.push((i * 2 + 2) % m);
        out.push((i * 2 + 3) % m);
        proof {
            assert((2 * i) % (m as int) == 2 * i) by (nonlinear_arith)
                requires
                    0 <= 2 * i < m,
            ;
            assert forall|j: int, c: int|
                0 <= j < i + 1 && 0 <= c < 3 implies out@[6 * j + c] == #[trigger] ring_triangle(
                res as int,
                j,
            )[c] && out@[6 * j + 3 + c] == ring_triangle(res as int, j + res)[c] by {
                if j < i {
                    assert(out@[6 * j + c] == before[6 * j + c]);
                    assert(out@[6 * j + 3 + c] == before[6 * j + 3 + c]);
                }
            }
        }
    }
    out
}

impl<const T: usize> IndexBuffer<T> {
    pub fn new(indices: Vec<[u32; T]>) -> (r: Self)
        ensures
            r.indices@ == indices@,
    {
        IndexBuffer::<T> { indices }
    }

    /// The number of index groups.
    pub fn count(&self) -> (r: usize)
        ensures
            r == self.indices@.len(),
    {
        self.indices.len()
    }

    /// The number of indices.
    pub fn index_count(&self) -> (r: usize)
        requires
            self.indices@.len() * T <= usize::MAX,
        ensures
            r == self.indices@.len() * T,
    {
        self.indices.len() * T
    }

    /// The size of the indices in bytes.
    pub fn size(&self) -> (r: usize)
        requires
            self.indices@.len() * (4 * T) <= usize::MAX,
            4 * T <= usize::MAX,
        ensures
            r == self.indices@.len() * (4 * T),
    {
        self.indices.len() * (4 * T)
    }

    /// Appends one index group.
    pub fn add_point(&mut self, point: [u32; T])
        ensures
            final(self).indices@ == old(self).indices@.push(point),
    {
        self.indices.push(point)
    }

    /// The two triangles of a quad whose corners are numbered 0 to 3.
    pub fn quad() -> (r: IndexBuffer<3>)
        ensures
            r.indices@ == seq![[0u32, 1u32, 3u32], [2u32, 3u32, 0u32]],
    {
        let mut indices: Vec<[u32; 3]> = Vec::new();
        indices.push([0, 1, 3]);
        indices.push([2, 3, 0]);
        assert(indices@ =~= seq![[0u32, 1u32, 3u32], [2u32, 3u32, 0u32]]);
        IndexBuffer { indices }
    }

    /// The `2 * res` triangles of a ring of `res` quads.
    pub fn ring(res: u32) -> (r: IndexBuffer<3>)
        requires
            2 * res + 1 <= u32::MAX,
        ensures
            r.indices@.len() == 2 * res,
            forall|i: int| 0 <= i < 2 * res ==> #[trigger] r.indices@[i] == ring_triangle(res as int, i),
    {
        let mut indices1: Vec<[u32; 3]> = Vec::new();
        let m = res * 2;
        for i in 0..res
            invariant
                m == 2 * res,
                2 * res + 1 <= u32::MAX,
                indices1@.len() == i,
                forall|k: int| 0 <= k < i ==> #[trigger] indices1@[k] == ring_triangle(res as int, k),
        {
            indices1.push([i * 2, (i * 2 + 1) % m, (i * 2 + 2) % m]);
        }
        let mut indices2: Vec<[u32; 3]> = Vec::new();
        for i in 0..res
            invariant
                m == 2 * res,
                2 * res + 1 <= u32::MAX,
                indices2@.len() == i,
                forall|k: int|
                    0 <= k < i ==> #[trigger] indices2@[k] == ring_triangle(res as int, k + res),
        {
            indices2.push([(i * 2 + 1) % m, (i * 2 + 2) % m, (i * 2 + 3) % m]);
        }
        let ghost first = indices1@;
        let ghost second = indices2@;
        indices1.append(&mut indices2);
        assert(indices1@ == first + second);
        assert forall|i: int| 0 <= i < 2 * res implies #[trigger] indices1@[i] == ring_triangle(
            res as int,
            i,
        ) by {
            if i >= res {
                assert(indices1@[i] == second[i - res]);
            } else {
                assert(indices1@[i] == first[i]);
            }
        }
        IndexBuffer { indices: indices1 }
    }
}

} // verus!
