//! Surface cells for point export.
use crate::grid::Grid3D;
use crate::surface_area::classify_edge_point;
use vstd::prelude::*;

verus! {

impl Grid3D {
    /// Whether cell `n` is a surface cell: occupied, with a type other than
    /// fully interior.
    pub open spec fn is_surface(&self, n: int) -> bool {
        self@[n] && self.cell_type(n) != 0
    }

    /// Linear indices of the surface cells, in increasing order.
    pub fn surface_voxels(&self) -> (r: Vec<usize>)
        requires
            self.wf(),
        ensures
            forall|a: int, b: int| 0 <= a < b < r.len() ==> r@[a] < r@[b],
            forall|t: int| 0 <= t < r.len() ==> (#[trigger] r@[t]) < self.total_voxels && self.is_surface(r@[t] as int),
            forall|n: int| 0 <= n < self.total_voxels && self.is_surface(n) ==> r@.contains(n as usize),
    {
        let total = self.total_voxels;
        let mut r: Vec<usize> = Vec::new();
        let mut idx: usize = 0;
        while idx < total
            invariant
                self.wf(),
                total == self.total_voxels,
                0 <= idx <= total,
                forall|a: int, b: int| 0 <= a < b < r.len() ==> r@[a] < r@[b],
                forall|t: int| 0 <= t < r.len() ==> (#[trigger] r@[t]) < idx && self.is_surface(r@[t] as int),
                forall|n: int| 0 <= n < idx && self.is_surface(n) ==> r@.contains(n as usize),
            decreases total - idx,
        {
            let ghost before = r@;
            if self.get_voxel_index(idx) && classify_edge_point(self, idx) != 0 {
                r.push(idx);
                proof {
                    assert forall|n: int| 0 <= n < idx + 1 && self.is_surface(n) implies r@.contains(n as usize) by {
                        if n == idx {
                            assert(r@[r.len() - 1] == idx);
                        } else {
                            let t = choose|t: int| 0 <= t < before.len() && before[t] == n as usize;
                            assert(r@[t] == before[t]);
                        }
                    }
                }
            }
            idx = idx + 1;
        }
        r
    }
}

} // verus!
