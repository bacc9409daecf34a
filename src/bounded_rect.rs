use vstd::prelude::*;

verus! {

/// An axis-aligned box given by its four edges.
#[derive(Clone, Copy, Debug, PartialEq, Eq, Structural)]
pub struct BoundingBox {
    pub top: i64,
    pub left: i64,
    pub right: i64,
    pub bottom: i64,
}

impl BoundingBox {
    pub fn new(left: i64, top: i64, right: i64, bottom: i64) -> (r: Self)
        ensures
            r == (BoundingBox { left, top, right, bottom }),
    {
        Self { left, top, right, bottom }
    }

    /// The box with top-left corner `(left, top)` and the given size.
    pub fn from_quad(corner: (i64, i64), size: (i64, i64)) -> (r: Self)
        requires
            i64::MIN <= corner.0 + size.0 <= i64::MAX,
            i64::MIN <= corner.1 + size.1 <= i64::MAX,
        ensures
            r == (BoundingBox {
                left: corner.0,
                top: corner.1,
                right: (corner.0 + size.0) as i64,
                bottom: (corner.1 + size.1) as i64,
            }),
    {
        let (left, top) = corner;
        let (width, height) = size;
        BoundingBox { top, left, bottom: top + height, right: left + width }
    }

    /// Whether `pos` lies strictly inside the box.
    pub fn contains(&self, pos: (i64, i64)) -> (r: bool)
        ensures
            r == (pos.0 > self.left && pos.1 > self.top && pos.0 < self.right && pos.1
                < self.bottom),
    {
        pos.0 > self.left && pos.1 > self.top && pos.0 < self.right && pos.1 < self.bottom
    }

    /// `right - left`, exactly.
    pub fn width(&self) -> (r: i128)
        ensures
            r == self.right - self.left,
    {
        self.right as i128 - self.left as i128
    }

    /// `bottom - top`, exactly.
    pub fn height(&self) -> (r: i128)
        ensures
            r == self.bottom - self.top,
    {
        self.bottom as i128 - self.top as i128
    }
}

} // verus!
