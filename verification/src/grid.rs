use vstd::prelude::*;

verus! {

/// A 2-D grid coordinate.
#[derive(Clone, Copy, Debug, PartialEq, Eq, Structural)]
pub struct GridIdx {
    pub x: usize,
    pub y: usize,
}

/// Row-major flattening of a 2-D coordinate.
pub open spec fn flat_idx(x: int, y: int, w: int) -> int {
    y * w + x
}

/// Inside a `w`-by-`w` grid, the flattened index stays under `w * w`.
pub proof fn lemma_flat_idx_bound(x: int, y: int, w: int)
    requires
        0 <= x < w,
        0 <= y < w,
    ensures
        0 <= flat_idx(x, y, w) < w * w,
{
    assert(0 <= y * w + x < w * w) by (nonlinear_arith)
        requires
            0 <= x < w,
            0 <= y < w,
    ;
}

/// In-bounds coordinates flatten to equal indices exactly when they are
/// the same coordinate.
pub proof fn lemma_flat_idx_inj(x1: int, y1: int, x2: int, y2: int, w: int)
    requires
        0 <= x1 < w,
        0 <= y1 < w,
        0 <= x2 < w,
        0 <= y2 < w,
    ensures
        (flat_idx(x1, y1, w) == flat_idx(x2, y2, w)) <==> (x1 == x2 && y1 == y2),
{
    assert(y1 * w + x1 == y2 * w + x2 <==> (x1 == x2 && y1 == y2)) by (nonlinear_arith)
        requires
            0 <= x1 < w,
            0 <= y1 < w,
            0 <= x2 < w,
            0 <= y2 < w,
    ;
}

/// A flat, row-major container addressed by 2-D coordinates. Purely an
/// addressing convenience: it holds no simulation logic and is never
/// resized after construction.
pub struct Grid<T> {
    pub data: Vec<T>,
    pub width: usize,
}

impl<T> Grid<T> {
    pub fn new(data: Vec<T>, width: usize) -> (g: Grid<T>)
        ensures
            g.data == data,
            g.width == width,
    {
        Grid { data, width }
    }

    pub fn len(&self) -> (n: usize)
        ensures
            n == self.data.len(),
    {
        self.data.len()
    }

    /// The particle at `(x, y)`; the coordinate must be in bounds.
    pub fn get(&self, x: usize, y: usize) -> (r: &T)
        requires
            x < self.width,
            flat_idx(x as int, y as int, self.width as int) < self.data.len(),
        ensures
            *r == self.data@[flat_idx(x as int, y as int, self.width as int)],
    {
        &self.data[y * self.width + x]
    }

    /// Replace the element at `(x, y)`; the coordinate must be in bounds.
    pub fn set(&mut self, x: usize, y: usize, v: T)
        requires
            x < old(self).width,
            flat_idx(x as int, y as int, old(self).width as int) < old(self).data.len(),
        ensures
            final(self).width == old(self).width,
            final(self).data@ == old(self).data@.update(
                flat_idx(x as int, y as int, old(self).width as int),
                v,
            ),
    {
        let i: usize = y * self.width + x;
        self.data.set(i, v);
    }
}

} // verus!
