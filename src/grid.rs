//! The lattice: a dense one-bit-per-cell 3D grid with a row-major linear
//! index (i fastest, then j, then k).
use crate::bits::{bits_clone, bits_of, bits_repeat, VoxelBits};
use crate::{length_ok, LENGTH_LIMIT};
use vstd::prelude::*;

verus! {

/// 3D voxel grid with bit-packed storage.
///
/// `grid_size` is the edge of one cell and `x_shift`, `y_shift`, `z_shift`
/// the physical position of cell (0, 0, 0), all in length units.
pub struct Grid3D {
    pub len_i: usize,
    pub len_j: usize,
    pub len_k: usize,
    pub total_voxels: usize,
    pub grid_size: i64,
    pub x_shift: i64,
    pub y_shift: i64,
    pub z_shift: i64,
    pub data: VoxelBits,
}

/// Dimensions that a lattice can be built with: positive, with a cell count
/// that fits a signed machine word.
pub open spec fn dims_ok(len_i: int, len_j: int, len_k: int) -> bool {
    &&& len_i > 0
    &&& len_j > 0
    &&& len_k > 0
    &&& len_i * len_j * len_k <= isize::MAX
}

/// The partial products of valid dimensions stay within the cell count.
pub proof fn lemma_dims_products(len_i: int, len_j: int, len_k: int)
    requires
        dims_ok(len_i, len_j, len_k),
    ensures
        len_i <= len_i * len_j <= len_i * len_j * len_k,
        len_j <= len_i * len_j,
{
    assert(len_i <= len_i * len_j) by (nonlinear_arith)
        requires len_i > 0, len_j > 0;
    assert(len_j <= len_i * len_j) by (nonlinear_arith)
        requires len_i > 0, len_j > 0;
    assert(len_i * len_j <= len_i * len_j * len_k) by (nonlinear_arith)
        requires len_i * len_j > 0, len_k > 0;
}

pub(crate) proof fn lemma_ijk_of_index(li: int, lj: int, lk: int, index: int)
    requires
        li > 0,
        lj > 0,
        lk > 0,
        0 <= index < li * lj * lk,
    ensures
        0 <= index % li < li,
        0 <= (index % (li * lj)) / li < lj,
        0 <= index / (li * lj) < lk,
        index % li + ((index % (li * lj)) / li) * li + (index / (li * lj)) * li * lj == index,
{
    let d = li * lj;
    assert(d > 0) by (nonlinear_arith)
        requires li > 0, lj > 0, d == li * lj;
    let k = index / d;
    let r = index % d;
    vstd::arithmetic::div_mod::lemma_fundamental_div_mod(index, d);
    vstd::arithmetic::div_mod::lemma_fundamental_div_mod(r, li);
    vstd::arithmetic::div_mod::lemma_mod_mod(index, li, lj);
    let j = r / li;
    let i = r % li;
    assert(0 <= r < d);
    assert(0 <= i < li);
    assert(0 <= j < lj) by (nonlinear_arith)
        requires r == li * j + i, 0 <= r < li * lj, 0 <= i < li, li > 0;
    assert(0 <= k < lk) by (nonlinear_arith)
        requires index == d * k + r, 0 <= r < d, 0 <= index < d * lk, d > 0, d == li * lj, index < li * lj * lk;
    assert(i + j * li + k * li * lj == index) by (nonlinear_arith)
        requires index == d * k + r, r == li * j + i, d == li * lj;
}

pub(crate) proof fn lemma_index_of_ijk(li: int, lj: int, lk: int, i: int, j: int, k: int)
    requires
        li > 0,
        lj > 0,
        lk > 0,
        0 <= i < li,
        0 <= j < lj,
        0 <= k < lk,
    ensures
        0 <= i + j * li + k * li * lj < li * lj * lk,
        (i + j * li + k * li * lj) % li == i,
        ((i + j * li + k * li * lj) % (li * lj)) / li == j,
        (i + j * li + k * li * lj) / (li * lj) == k,
{
    let d = li * lj;
    let index = i + j * li + k * li * lj;
    let r = i + j * li;
    assert(0 <= r < d) by (nonlinear_arith)
        requires r == i + j * li, 0 <= i < li, 0 <= j < lj, d == li * lj;
    assert(index == k * d + r) by (nonlinear_arith)
        requires index == i + j * li + k * li * lj, r == i + j * li, d == li * lj;
    assert(0 <= index < d * lk) by (nonlinear_arith)
        requires index == k * d + r, 0 <= r < d, 0 <= k < lk;
    assert(d * lk == li * lj * lk) by (nonlinear_arith)
        requires d == li * lj;
    vstd::arithmetic::div_mod::lemma_fundamental_div_mod_converse(index, d, k, r);
    vstd::arithmetic::div_mod::lemma_fundamental_div_mod_converse(r, li, j, i);
    vstd::arithmetic::div_mod::lemma_mod_mod(index, li, lj);
}

/// A cell size that a lattice can be built with.
pub open spec fn cell_size_ok(grid_size: i64) -> bool {
    0 < grid_size <= LENGTH_LIMIT
}

impl Clone for Grid3D {
    /// A copy with the same frame and the same occupancy.
    fn clone(&self) -> (r: Grid3D)
        ensures
            r.same_frame(self),
            r@ == self@,
    {
        Grid3D {
            len_i: self.len_i,
            len_j: self.len_j,
            len_k: self.len_k,
            total_voxels: self.total_voxels,
            grid_size: self.grid_size,
            x_shift: self.x_shift,
            y_shift: self.y_shift,
            z_shift: self.z_shift,
            data: bits_clone(&self.data),
        }
    }
}

impl View for Grid3D {
    type V = Seq<bool>;

    /// Occupancy of each cell, by linear index.
    open spec fn view(&self) -> Seq<bool> {
        bits_of(self.data)
    }
}

impl Grid3D {
    /// The lattice invariant: consistent dimensions and a bit store of
    /// exactly `total_voxels` cells.
    pub open spec fn wf(&self) -> bool {
        &&& dims_ok(self.len_i as int, self.len_j as int, self.len_k as int)
        &&& self.total_voxels == self.len_i * self.len_j * self.len_k
        &&& cell_size_ok(self.grid_size)
        &&& length_ok(self.x_shift)
        &&& length_ok(self.y_shift)
        &&& length_ok(self.z_shift)
        &&& self@.len() == self.total_voxels
    }

    /// Everything but the occupancy is the same in `self` and `other`.
    pub open spec fn same_frame(&self, other: &Grid3D) -> bool {
        &&& self.len_i == other.len_i
        &&& self.len_j == other.len_j
        &&& self.len_k == other.len_k
        &&& self.total_voxels == other.total_voxels
        &&& self.grid_size == other.grid_size
        &&& self.x_shift == other.x_shift
        &&& self.y_shift == other.y_shift
        &&& self.z_shift == other.z_shift
    }

    /// Linear index of cell (i, j, k).
    pub open spec fn index_of(&self, i: int, j: int, k: int) -> int {
        i + j * self.len_i + k * self.len_i * self.len_j
    }

    /// Whether (i, j, k) lies inside the lattice.
    pub open spec fn in_bounds(&self, i: int, j: int, k: int) -> bool {
        0 <= i < self.len_i && 0 <= j < self.len_j && 0 <= k < self.len_k
    }

    /// Whether (i, j, k) is an occupied cell of the lattice; a position
    /// outside the lattice counts as empty.
    pub open spec fn occupied_at(&self, i: int, j: int, k: int) -> bool {
        self.in_bounds(i, j, k) && self@[self.index_of(i, j, k)]
    }

    /// Whether any of the six face neighbours of cell `index` is occupied.
    pub open spec fn has_filled_neighbor_at(&self, index: int) -> bool {
        let (i, j, k) = self.ijk_of(index);
        ||| self.occupied_at(i - 1, j, k)
        ||| self.occupied_at(i + 1, j, k)
        ||| self.occupied_at(i, j - 1, k)
        ||| self.occupied_at(i, j + 1, k)
        ||| self.occupied_at(i, j, k - 1)
        ||| self.occupied_at(i, j, k + 1)
    }

    /// Coordinates of the cell with linear index `index`.
    pub open spec fn ijk_of(&self, index: int) -> (int, int, int) {
        (
            index % (self.len_i as int),
            (index % (self.len_i * self.len_j)) / (self.len_i as int),
            index / (self.len_i * self.len_j),
        )
    }

    /// The linear index and the cell coordinates are mutually inverse
    /// bijections between `[0, total_voxels)` and the cells in bounds.
    pub proof fn lemma_index_bijection(&self)
        requires
            self.wf(),
        ensures
            forall|index: int|
                0 <= index < self.total_voxels ==> {
                    let (i, j, k) = #[trigger] self.ijk_of(index);
                    self.in_bounds(i, j, k) && self.index_of(i, j, k) == index
                },
            forall|i: int, j: int, k: int|
                #![trigger self.index_of(i, j, k)]
                self.in_bounds(i, j, k) ==> {
                    let index = self.index_of(i, j, k);
                    0 <= index < self.total_voxels && self.ijk_of(index) == (i, j, k)
                },
    {
        assert forall|index: int| 0 <= index < self.total_voxels implies {
            let (i, j, k) = #[trigger] self.ijk_of(index);
            self.in_bounds(i, j, k) && self.index_of(i, j, k) == index
        } by {
            lemma_ijk_of_index(self.len_i as int, self.len_j as int, self.len_k as int, index);
        }
        assert forall|i: int, j: int, k: int| self.in_bounds(i, j, k) implies {
            let index = #[trigger] self.index_of(i, j, k);
            0 <= index < self.total_voxels && self.ijk_of(index) == (i, j, k)
        } by {
            lemma_index_of_ijk(self.len_i as int, self.len_j as int, self.len_k as int, i, j, k);
        }
    }

    /// Create a new voxel grid, fully allocated with all voxels cleared.
    pub fn new(len_i: usize, len_j: usize, len_k: usize, grid_size: i64) -> (r: Grid3D)
        requires
            dims_ok(len_i as int, len_j as int, len_k as int),
            cell_size_ok(grid_size),
        ensures
            r.wf(),
            r.len_i == len_i,
            r.len_j == len_j,
            r.len_k == len_k,
            r.grid_size == grid_size,
            r.x_shift == 0 && r.y_shift == 0 && r.z_shift == 0,
            r@ == Seq::new(r.total_voxels as nat, |_i: int| false),
    {
        proof {
            lemma_dims_products(len_i as int, len_j as int, len_k as int);
        }
        let total_voxels = len_i * len_j * len_k;
        Grid3D {
            len_i,
            len_j,
            len_k,
            total_voxels,
            grid_size,
            x_shift: 0,
            y_shift: 0,
            z_shift: 0,
            data: bits_repeat(false, total_voxels),
        }
    }
}

} // verus!
