//! Lattice accessors: index conversion, single-cell reads and writes, and
//! whole-lattice operations.
use crate::bits::{bits_count_ones, bits_fill, bits_get, bits_of, bits_set, count_true};
use crate::grid::Grid3D;
use vstd::prelude::*;

verus! {

/// Every cell flipped.
pub open spec fn inverted(s: Seq<bool>) -> Seq<bool> {
    Seq::new(s.len(), |i: int| !s[i])
}

/// Writing a value into a cell and reading that cell back gives the value.
pub proof fn lemma_set_then_get(g: Grid3D, index: int, value: bool)
    requires
        g.wf(),
        0 <= index < g.total_voxels,
    ensures
        g@.update(index, value)[index] == value,
{
}

/// Inverting a lattice twice restores it.
pub proof fn lemma_invert_twice(g: Grid3D)
    requires
        g.wf(),
    ensures
        inverted(inverted(g@)) == g@,
{
    assert(inverted(inverted(g@)) =~= g@);
}

/// After an inversion the occupied count is the total less the count before.
pub proof fn lemma_count_after_invert(g: Grid3D)
    requires
        g.wf(),
    ensures
        count_true(inverted(g@)) == g.total_voxels - count_true(g@),
{
    lemma_count_inverted(g@);
}

proof fn lemma_count_inverted(s: Seq<bool>)
    ensures
        count_true(inverted(s)) + count_true(s) == s.len(),
    decreases s.len(),
{
    if s.len() > 0 {
        assert(inverted(s).drop_last() =~= inverted(s.drop_last()));
        lemma_count_inverted(s.drop_last());
    }
}

impl Grid3D {
    /// Linear shift of the relative displacement (i, j, k).
    pub open spec fn shift_of(&self, i: int, j: int, k: int) -> int {
        i + j * self.len_i + k * self.len_i * self.len_j
    }

    /// Convert (i, j, k) to a linear index.
    pub fn ijk_to_index(&self, i: usize, j: usize, k: usize) -> (r: usize)
        requires
            self.wf(),
            self.in_bounds(i as int, j as int, k as int),
        ensures
            r == self.index_of(i as int, j as int, k as int),
            r < self.total_voxels,
    {
        proof {
            self.lemma_index_bijection();
            assert(self.index_of(i as int, j as int, k as int) < self.total_voxels);
            assert(j * self.len_i <= self.index_of(i as int, j as int, k as int));
            assert(k * self.len_i * self.len_j <= self.index_of(i as int, j as int, k as int));
            crate::grid::lemma_dims_products(self.len_i as int, self.len_j as int, self.len_k as int);
            assert(k * self.len_i <= k * self.len_i * self.len_j) by (nonlinear_arith)
                requires k >= 0, self.len_i >= 0, self.len_j >= 1;
        }
        i + j * self.len_i + k * self.len_i * self.len_j
    }

    /// Convert a relative displacement (i, j, k) to a signed linear shift.
    pub fn ijk_to_shift(&self, i: isize, j: isize, k: isize) -> (r: isize)
        requires
            self.wf(),
            isize::MIN <= j * self.len_i <= isize::MAX,
            isize::MIN <= k * self.len_i * self.len_j <= isize::MAX,
            isize::MIN <= j * self.len_i + k * self.len_i * self.len_j <= isize::MAX,
            isize::MIN <= self.shift_of(i as int, j as int, k as int) <= isize::MAX,
        ensures
            r == self.shift_of(i as int, j as int, k as int),
    {
        proof {
            crate::grid::lemma_dims_products(self.len_i as int, self.len_j as int, self.len_k as int);
        }
        let li = self.len_i as isize;
        let lij = (self.len_i * self.len_j) as isize;
        proof {
            assert(k * lij == k * self.len_i * self.len_j) by (nonlinear_arith)
                requires lij == self.len_i * self.len_j;
        }
        i + (j * li + k * lij)
    }

    /// Convert a linear index back to (i, j, k).
    pub fn index_to_ijk(&self, index: usize) -> (r: (usize, usize, usize))
        requires
            self.wf(),
            index < self.total_voxels,
        ensures
            (r.0 as int, r.1 as int, r.2 as int) == self.ijk_of(index as int),
            self.in_bounds(r.0 as int, r.1 as int, r.2 as int),
            self.index_of(r.0 as int, r.1 as int, r.2 as int) == index,
    {
        proof {
            self.lemma_index_bijection();
            assert(self.ijk_of(index as int) == self.ijk_of(index as int));
            crate::grid::lemma_dims_products(self.len_i as int, self.len_j as int, self.len_k as int);
        }
        let lij = self.len_i * self.len_j;
        let k = index / lij;
        let j = (index % lij) / self.len_i;
        let i = index % self.len_i;
        (i, j, k)
    }

    /// Get a voxel value by linear index.
    pub fn get_voxel_index(&self, index: usize) -> (r: bool)
        requires
            self.wf(),
            index < self.total_voxels,
        ensures
            r == self@[index as int],
    {
        bits_get(&self.data, index)
    }

    /// Get a voxel value using (i, j, k) coordinates.
    pub fn get_voxel_ijk(&self, i: usize, j: usize, k: usize) -> (r: bool)
        requires
            self.wf(),
            self.in_bounds(i as int, j as int, k as int),
        ensures
            r == self@[self.index_of(i as int, j as int, k as int)],
    {
        let index = self.ijk_to_index(i, j, k);
        self.get_voxel_index(index)
    }

    /// Set a voxel value by linear index.
    pub fn set_voxel_index(&mut self, index: usize, value: bool)
        requires
            old(self).wf(),
            index < old(self).total_voxels,
        ensures
            final(self).wf(),
            final(self).same_frame(old(self)),
            final(self)@ == old(self)@.update(index as int, value),
    {
        bits_set(&mut self.data, index, value);
    }

    /// Set a voxel value using (i, j, k) coordinates.
    pub fn set_voxel_ijk(&mut self, i: usize, j: usize, k: usize, value: bool)
        requires
            old(self).wf(),
            old(self).in_bounds(i as int, j as int, k as int),
        ensures
            final(self).wf(),
            final(self).same_frame(old(self)),
            final(self)@ == old(self)@.update(old(self).index_of(i as int, j as int, k as int), value),
    {
        let index = self.ijk_to_index(i, j, k);
        self.set_voxel_index(index, value);
    }

    /// Set a voxel to occupied.
    pub fn fill_voxel_ijk(&mut self, i: usize, j: usize, k: usize)
        requires
            old(self).wf(),
            old(self).in_bounds(i as int, j as int, k as int),
        ensures
            final(self).wf(),
            final(self).same_frame(old(self)),
            final(self)@ == old(self)@.update(old(self).index_of(i as int, j as int, k as int), true),
    {
        self.set_voxel_ijk(i, j, k, true);
    }

    /// Set a voxel to occupied, by linear index.
    pub fn fill_voxel_index(&mut self, index: usize)
        requires
            old(self).wf(),
            index < old(self).total_voxels,
        ensures
            final(self).wf(),
            final(self).same_frame(old(self)),
            final(self)@ == old(self)@.update(index as int, true),
    {
        self.set_voxel_index(index, true);
    }

    /// Set a voxel to empty.
    pub fn empty_voxel_ijk(&mut self, i: usize, j: usize, k: usize)
        requires
            old(self).wf(),
            old(self).in_bounds(i as int, j as int, k as int),
        ensures
            final(self).wf(),
            final(self).same_frame(old(self)),
            final(self)@ == old(self)@.update(old(self).index_of(i as int, j as int, k as int), false),
    {
        self.set_voxel_ijk(i, j, k, false);
    }

    /// Set a voxel to empty, by linear index.
    pub fn empty_voxel_index(&mut self, index: usize)
        requires
            old(self).wf(),
            index < old(self).total_voxels,
        ensures
            final(self).wf(),
            final(self).same_frame(old(self)),
            final(self)@ == old(self)@.update(index as int, false),
    {
        self.set_voxel_index(index, false);
    }

    /// Clear every voxel.
    pub fn zero_grid(&mut self)
        requires
            old(self).wf(),
        ensures
            final(self).wf(),
            final(self).same_frame(old(self)),
            final(self)@ == Seq::new(old(self).total_voxels as nat, |_i: int| false),
    {
        bits_fill(&mut self.data, false);
    }

    /// Flip every voxel.
    pub fn invert(&mut self)
        requires
            old(self).wf(),
        ensures
            final(self).wf(),
            final(self).same_frame(old(self)),
            final(self)@ == inverted(old(self)@),
    {
        let n = self.total_voxels;
        let mut idx: usize = 0;
        while idx < n
            invariant
                self.wf(),
                self.same_frame(old(self)),
                n == self.total_voxels,
                0 <= idx <= n,
                forall|t: int| 0 <= t < idx ==> self@[t] == !old(self)@[t],
                forall|t: int| idx <= t < n ==> self@[t] == old(self)@[t],
            decreases n - idx,
        {
            let v = self.get_voxel_index(idx);
            self.set_voxel_index(idx, !v);
            idx = idx + 1;
        }
        assert(self@ =~= inverted(old(self)@));
    }

    /// Count the occupied voxels.
    pub fn count_filled(&self) -> (r: usize)
        requires
            self.wf(),
        ensures
            r == count_true(self@),
    {
        bits_count_ones(&self.data)
    }
}

} // verus!
