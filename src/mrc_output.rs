//! Voxel data for volumetric export, in linear index order.
use crate::grid::Grid3D;
use vstd::prelude::*;

verus! {

impl Grid3D {
    /// One byte per cell in linear index order (i fastest, then j, then k):
    /// 1 for an occupied cell, 0 for an empty one.
    pub fn voxel_bytes(&self) -> (r: Vec<u8>)
        requires
            self.wf(),
        ensures
            r@ == Seq::new(self.total_voxels as nat, |n: int| if self@[n] { 1u8 } else { 0u8 }),
    {
        let total = self.total_voxels;
        let mut r: Vec<u8> = Vec::new();
        let mut idx: usize = 0;
        while idx < total
            invariant
                self.wf(),
                total == self.total_voxels,
                0 <= idx <= total,
                r@ == Seq::new(idx as nat, |n: int| if self@[n] { 1u8 } else { 0u8 }),
            decreases total - idx,
        {
            let b: u8 = if self.get_voxel_index(idx) {
                1
            } else {
                0
            };
            r.push(b);
            idx = idx + 1;
            assert(r@ =~= Seq::new(idx as nat, |n: int| if self@[n] { 1u8 } else { 0u8 }));
        }
        r
    }
}

} // verus!
