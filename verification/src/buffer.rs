//! The in-memory raster the compressor reads and the reconstructor fills.

use vstd::prelude::*;

use crate::px::{Px, PxKind};

verus! {

/// Linear index of the pixel at `(x, y)` in a row-major raster of the given
/// width.
pub open spec fn pidx(width: int, x: int, y: int) -> int {
    y * width + x
}

pub proof fn lemma_pidx_in_range(width: int, height: int, x: int, y: int)
    requires
        0 <= x < width,
        0 <= y < height,
    ensures
        0 <= pidx(width, x, y) < width * height,
{
    assert(0 <= y * width + x < width * height) by (nonlinear_arith)
        requires
            0 <= x < width,
            0 <= y < height,
    ;
}

/// A rectangular raster of samples, stored row-major, all of one layout.
pub struct Buffer {
    pub width: u32,
    pub height: u32,
    pub kind: PxKind,
    pub data: Vec<Px>,
}

impl Buffer {
    pub open spec fn wf(self) -> bool {
        &&& self.width * self.height <= usize::MAX
        &&& self.data@.len() == self.width * self.height
        &&& forall|i: int|
            0 <= i < self.data@.len() ==> (#[trigger] self.data@[i]).kind() == self.kind
    }

    /// The sample at `(x, y)`.
    pub open spec fn spec_get(self, x: int, y: int) -> Px {
        self.data@[pidx(self.width as int, x, y)]
    }

    /// A fresh raster with every channel of every sample zero.
    pub fn new(width: u32, height: u32, kind: PxKind) -> (r: Buffer)
        requires
            width * height <= usize::MAX,
        ensures
            r.wf(),
            r.width == width,
            r.height == height,
            r.kind == kind,
            r.data@.len() == width * height,
            forall|i: int| 0 <= i < r.data@.len() ==> r.data@[i] == Px::spec_zero(kind),
    {
        let n: usize = (width as usize) * (height as usize);
        let mut data: Vec<Px> = Vec::new();
        let mut j: usize = 0;
        while j < n
            invariant
                j <= n,
                n == width * height,
                data@.len() == j,
                forall|i: int| 0 <= i < j ==> data@[i] == Px::spec_zero(kind),
            decreases n - j,
        {
            data.push(Px::zero(kind));
            j = j + 1;
        }
        Buffer { width, height, kind, data }
    }

    pub fn get(&self, x: u32, y: u32) -> (r: Px)
        requires
            self.wf(),
            x < self.width,
            y < self.height,
        ensures
            r == self.spec_get(x as int, y as int),
            r.kind() == self.kind,
    {
        proof {
            lemma_pidx_in_range(self.width as int, self.height as int, x as int, y as int);
        }
        let i: usize = (y as usize) * (self.width as usize) + (x as usize);
        self.data[i]
    }

    pub fn set(&mut self, x: u32, y: u32, v: Px)
        requires
            old(self).wf(),
            x < old(self).width,
            y < old(self).height,
            v.kind() == old(self).kind,
        ensures
            final(self).wf(),
            final(self).width == old(self).width,
            final(self).height == old(self).height,
            final(self).kind == old(self).kind,
            final(self).data@ == old(self).data@.update(
                pidx(old(self).width as int, x as int, y as int),
                v,
            ),
    {
        proof {
            lemma_pidx_in_range(self.width as int, self.height as int, x as int, y as int);
        }
        let i: usize = (y as usize) * (self.width as usize) + (x as usize);
        self.data.set(i, v);
    }
}

} // verus!
