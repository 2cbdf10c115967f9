//! Surface classifier: each occupied cell gets a type from its six face
//! neighbours, and the types weight a surface-area estimate.
use crate::grid::Grid3D;
use vstd::prelude::*;

verus! {

/// Number of cell types.
pub const EDGE_TYPES: usize = 10;

/// Weight of each cell type, in ten-thousandths of a cell face area.
pub open spec fn edge_weight(t: int) -> int {
    if t == 1 {
        8940
    } else if t == 2 {
        13409
    } else if t == 3 {
        15879
    } else if t == 4 {
        40000
    } else if t == 5 {
        26667
    } else if t == 6 {
        33333
    } else if t == 7 {
        17900
    } else if t == 8 {
        26800
    } else if t == 9 {
        40800
    } else {
        0
    }
}

/// Type of a cell with `empty` empty face neighbours; `pair_empty` tells
/// whether both neighbours along some axis are empty, `pair_full` whether
/// both along some axis are occupied.
pub open spec fn edge_type(empty: int, pair_empty: bool, pair_full: bool) -> int {
    if empty == 0 {
        0
    } else if empty == 1 {
        1
    } else if empty == 2 {
        if pair_empty {
            7
        } else {
            2
        }
    } else if empty == 3 {
        if pair_empty {
            4
        } else {
            3
        }
    } else if empty == 4 {
        if pair_full {
            8
        } else {
            5
        }
    } else if empty == 5 {
        6
    } else {
        9
    }
}

/// 1 for `true`, 0 for `false`.
pub open spec fn b2i(b: bool) -> int {
    if b {
        1
    } else {
        0
    }
}

impl Grid3D {
    /// Type of cell `index` from its six face neighbours (outside = empty).
    pub open spec fn cell_type(&self, index: int) -> int {
        let (i, j, k) = self.ijk_of(index);
        let im = self.occupied_at(i - 1, j, k);
        let ip = self.occupied_at(i + 1, j, k);
        let jm = self.occupied_at(i, j - 1, k);
        let jp = self.occupied_at(i, j + 1, k);
        let km = self.occupied_at(i, j, k - 1);
        let kp = self.occupied_at(i, j, k + 1);
        let empty = b2i(!im) + b2i(!ip) + b2i(!jm) + b2i(!jp) + b2i(!km) + b2i(!kp);
        edge_type(
            empty,
            (!im && !ip) || (!jm && !jp) || (!km && !kp),
            (im && ip) || (jm && jp) || (km && kp),
        )
    }

    /// Number of empty face neighbours of cell `index` (outside = empty).
    pub open spec fn exposed_faces_at(&self, index: int) -> int {
        let (i, j, k) = self.ijk_of(index);
        b2i(!self.occupied_at(i - 1, j, k)) + b2i(!self.occupied_at(i + 1, j, k)) + b2i(!self.occupied_at(i, j - 1, k))
            + b2i(!self.occupied_at(i, j + 1, k)) + b2i(!self.occupied_at(i, j, k - 1)) + b2i(
            !self.occupied_at(i, j, k + 1),
        )
    }

    /// Exposed faces of the occupied cells below `upto`.
    pub open spec fn exposed_faces(&self, upto: int) -> int
        decreases upto,
    {
        if upto <= 0 {
            0
        } else {
            self.exposed_faces(upto - 1) + if self@[upto - 1] {
                self.exposed_faces_at(upto - 1)
            } else {
                0
            }
        }
    }

    /// Number of occupied cells below `upto` of type `t`.
    pub open spec fn type_count(&self, t: int, upto: int) -> nat
        decreases upto,
    {
        if upto <= 0 {
            0
        } else {
            self.type_count(t, upto - 1) + if self@[upto - 1] && self.cell_type(upto - 1) == t {
                1nat
            } else {
                0nat
            }
        }
    }

    /// Sum of the weights of the occupied cells below `upto`.
    pub open spec fn weighted_faces(&self, upto: int) -> int
        decreases upto,
    {
        if upto <= 0 {
            0
        } else {
            self.weighted_faces(upto - 1) + if self@[upto - 1] {
                edge_weight(self.cell_type(upto - 1))
            } else {
                0
            }
        }
    }
}

/// Whether the neighbour of cell `idx` one step along `axis` (0 = i, 1 = j,
/// 2 = k), forward when `positive`, is an occupied cell of the lattice.
fn neighbor_filled(grid: &Grid3D, idx: usize, axis: usize, positive: bool) -> (r: bool)
    requires
        grid.wf(),
        idx < grid.total_voxels,
        axis < 3,
    ensures
        ({
            let (i, j, k) = grid.ijk_of(idx as int);
            let d: int = if positive { 1 } else { -1 };
            r == if axis == 0 {
                grid.occupied_at(i + d, j, k)
            } else if axis == 1 {
                grid.occupied_at(i, j + d, k)
            } else {
                grid.occupied_at(i, j, k + d)
            }
        }),
{
    let (i, j, k) = grid.index_to_ijk(idx);
    let li = grid.len_i;
    let lj = grid.len_j;
    let lk = grid.len_k;
    proof {
        grid.lemma_index_bijection();
        crate::grid::lemma_dims_products(li as int, lj as int, lk as int);
        let ii = i as int;
        let jj = j as int;
        let kk = k as int;
        assert(grid.index_of(ii - 1, jj, kk) == idx - 1);
        assert(grid.index_of(ii + 1, jj, kk) == idx + 1);
        assert(grid.index_of(ii, jj - 1, kk) == idx - li) by (nonlinear_arith)
            requires grid.index_of(ii, jj, kk) == idx, li == grid.len_i;
        assert(grid.index_of(ii, jj + 1, kk) == idx + li) by (nonlinear_arith)
            requires grid.index_of(ii, jj, kk) == idx, li == grid.len_i;
        assert(grid.index_of(ii, jj, kk - 1) == idx - li * lj) by (nonlinear_arith)
            requires grid.index_of(ii, jj, kk) == idx, li == grid.len_i, lj == grid.len_j;
        assert(grid.index_of(ii, jj, kk + 1) == idx + li * lj) by (nonlinear_arith)
            requires grid.index_of(ii, jj, kk) == idx, li == grid.len_i, lj == grid.len_j;
        if kk + 1 < lk {
            assert(grid.in_bounds(ii, jj, kk + 1));
        }
        if jj + 1 < lj {
            assert(grid.in_bounds(ii, jj + 1, kk));
        }
        if ii + 1 < li {
            assert(grid.in_bounds(ii + 1, jj, kk));
        }
        assert(j * li <= idx) by (nonlinear_arith)
            requires idx == i + j * li + k * li * lj, i >= 0, k >= 0, li >= 0, lj >= 0;
        assert(k * (li * lj) <= idx) by (nonlinear_arith)
            requires idx == i + j * li + k * li * lj, i >= 0, j >= 0, li >= 0, lj >= 0;
        assert(j > 0 ==> li <= j * li) by (nonlinear_arith)
            requires li >= 0;
        assert(k > 0 ==> li * lj <= k * (li * lj)) by (nonlinear_arith)
            requires li * lj >= 0;
    }
    if axis == 0 {
        if positive {
            i + 1 < li && grid.get_voxel_index(idx + 1)
        } else {
            i > 0 && grid.get_voxel_index(idx - 1)
        }
    } else if axis == 1 {
        if positive {
            j + 1 < lj && grid.get_voxel_index(idx + li)
        } else {
            j > 0 && grid.get_voxel_index(idx - li)
        }
    } else {
        let stride_k = li * lj;
        if positive {
            k + 1 < lk && grid.get_voxel_index(idx + stride_k)
        } else {
            k > 0 && grid.get_voxel_index(idx - stride_k)
        }
    }
}

/// Edge classification of cell `idx` from its six face neighbours, cells
/// outside the lattice counting as empty.
pub fn classify_edge_point(grid: &Grid3D, idx: usize) -> (r: usize)
    requires
        grid.wf(),
        idx < grid.total_voxels,
    ensures
        r == grid.cell_type(idx as int),
        r < EDGE_TYPES,
{
    let im = neighbor_filled(grid, idx, 0, false);
    let ip = neighbor_filled(grid, idx, 0, true);
    let jm = neighbor_filled(grid, idx, 1, false);
    let jp = neighbor_filled(grid, idx, 1, true);
    let km = neighbor_filled(grid, idx, 2, false);
    let kp = neighbor_filled(grid, idx, 2, true);
    let nb_empty: usize = (if im { 0 } else { 1 }) + (if ip { 0 } else { 1 }) + (if jm { 0 } else { 1 }) + (if jp {
        0
    } else {
        1
    }) + (if km { 0 } else { 1 }) + (if kp { 0 } else { 1 });
    if nb_empty == 0 || nb_empty == 1 {
        nb_empty
    } else if nb_empty == 2 {
        if (!im && !ip) || (!jm && !jp) || (!km && !kp) {
            7
        } else {
            2
        }
    } else if nb_empty == 3 {
        if (!im && !ip) || (!jm && !jp) || (!km && !kp) {
            4
        } else {
            3
        }
    } else if nb_empty == 4 {
        if (im && ip) || (jm && jp) || (km && kp) {
            8
        } else {
            5
        }
    } else if nb_empty == 5 {
        6
    } else {
        9
    }
}

/// Weight of cell type `t`, in ten-thousandths of a cell face area.
fn edge_weight_exec(t: usize) -> (w: u64)
    ensures
        w == edge_weight(t as int),
        w <= 40800,
{
    if t == 1 {
        8940
    } else if t == 2 {
        13409
    } else if t == 3 {
        15879
    } else if t == 4 {
        40000
    } else if t == 5 {
        26667
    } else if t == 6 {
        33333
    } else if t == 7 {
        17900
    } else if t == 8 {
        26800
    } else if t == 9 {
        40800
    } else {
        0
    }
}

impl Grid3D {
    /// The weighted area fits 128 bits.
    pub open spec fn area_fits(&self) -> bool {
        (self.total_voxels as int) * 40800 * (self.grid_size * self.grid_size) <= u128::MAX
    }

    /// Surface area from the edge classification of every occupied cell.
    /// Returns the area, in ten-thousandths of a squared length unit (the
    /// sum of the cells' type weights times the squared cell size), and the
    /// number of occupied cells of each type.
    pub fn estimate_surface_area_with_edges(&self) -> (r: (u128, Vec<usize>))
        requires
            self.wf(),
            self.area_fits(),
        ensures
            r.1.len() == EDGE_TYPES,
            forall|t: int| 0 <= t < EDGE_TYPES ==> #[trigger] r.1@[t] == self.type_count(t, self.total_voxels as int),
            r.0 == self.weighted_faces(self.total_voxels as int) * (self.grid_size * self.grid_size),
    {
        let total = self.total_voxels;
        let mut edges: Vec<usize> = Vec::new();
        while edges.len() < EDGE_TYPES
            invariant
                edges.len() <= EDGE_TYPES,
                forall|t: int| 0 <= t < edges.len() ==> #[trigger] edges@[t] == 0,
            decreases EDGE_TYPES - edges.len(),
        {
            edges.push(0);
        }
        let mut surf: u128 = 0;
        let mut idx: usize = 0;
        while idx < total
            invariant
                self.wf(),
                total == self.total_voxels,
                0 <= idx <= total,
                edges.len() == EDGE_TYPES,
                forall|t: int| 0 <= t < EDGE_TYPES ==> #[trigger] edges@[t] == self.type_count(t, idx as int),
                forall|t: int| 0 <= t < EDGE_TYPES ==> self.type_count(t, idx as int) <= idx,
                surf == self.weighted_faces(idx as int),
                0 <= surf <= 40800 * idx,
            decreases total - idx,
        {
            if self.get_voxel_index(idx) {
                let typ = classify_edge_point(self, idx);
                let w = edge_weight_exec(typ);
                let c = edges[typ];
                edges.set(typ, c + 1);
                surf = surf + w as u128;
            }
            proof {
                assert forall|t: int| 0 <= t < EDGE_TYPES implies #[trigger] edges@[t] == self.type_count(t, idx + 1) by {}
                assert forall|t: int| 0 <= t < EDGE_TYPES implies #[trigger] self.type_count(t, idx + 1) <= idx + 1 by {
                    assert(self.type_count(t, idx as int) <= idx);
                }
            }
            idx = idx + 1;
        }
        let g = self.grid_size as u128;
        proof {
            assert(g * g <= 1_000_000_000_000_000_000_000_000) by (nonlinear_arith)
                requires 0 < g <= 1_000_000_000_000;
            assert(surf * (g * g) <= u128::MAX) by (nonlinear_arith)
                requires surf <= 40800 * total, total * 40800 * (g * g) <= u128::MAX, g * g >= 0, surf >= 0;
            assert(g * g <= surf * (g * g) || surf == 0) by (nonlinear_arith)
                requires surf >= 0, g * g >= 0;
            assert(g * g <= total * 40800 * (g * g) || total == 0) by (nonlinear_arith)
                requires total >= 0, g * g >= 0;
        }
        (surf * (g * g), edges)
    }
}

impl Grid3D {
    /// Unweighted surface area: every face between an occupied cell and an
    /// empty or outside neighbour counts one squared cell size. Returns the
    /// area in squared length units.
    pub fn area_naive(&self) -> (r: u128)
        requires
            self.wf(),
            self.area_fits(),
        ensures
            r == self.exposed_faces(self.total_voxels as int) * (self.grid_size * self.grid_size),
    {
        let total = self.total_voxels;
        let mut faces: u128 = 0;
        let mut idx: usize = 0;
        while idx < total
            invariant
                self.wf(),
                total == self.total_voxels,
                0 <= idx <= total,
                faces == self.exposed_faces(idx as int),
                0 <= faces <= 6 * idx,
            decreases total - idx,
        {
            if self.get_voxel_index(idx) {
                let mut e: u128 = 0;
                let mut axis: usize = 0;
                while axis < 3
                    invariant
                        self.wf(),
                        idx < self.total_voxels,
                        0 <= axis <= 3,
                        e == ({
                            let (i, j, k) = self.ijk_of(idx as int);
                            (if axis > 0 {
                                b2i(!self.occupied_at(i - 1, j, k)) + b2i(!self.occupied_at(i + 1, j, k))
                            } else {
                                0
                            }) + (if axis > 1 {
                                b2i(!self.occupied_at(i, j - 1, k)) + b2i(!self.occupied_at(i, j + 1, k))
                            } else {
                                0
                            }) + (if axis > 2 {
                                b2i(!self.occupied_at(i, j, k - 1)) + b2i(!self.occupied_at(i, j, k + 1))
                            } else {
                                0
                            })
                        }),
                        e <= 2 * axis,
                    decreases 3 - axis,
                {
                    if !neighbor_filled(self, idx, axis, false) {
                        e = e + 1;
                    }
                    if !neighbor_filled(self, idx, axis, true) {
                        e = e + 1;
                    }
                    axis = axis + 1;
                }
                faces = faces + e;
            }
            idx = idx + 1;
        }
        let g = self.grid_size as u128;
        proof {
            assert(g * g <= 1_000_000_000_000_000_000_000_000) by (nonlinear_arith)
                requires 0 < g <= 1_000_000_000_000;
            assert(faces * (g * g) <= u128::MAX) by (nonlinear_arith)
                requires faces <= 6 * total, total * 40800 * (g * g) <= u128::MAX, g * g >= 0, faces >= 0;
        }
        faces * (g * g)
    }
}

/// A lattice with a single occupied cell classifies it as type 9 (all six
/// neighbours empty); the histogram holds that one cell in bucket 9 and no
/// other, and the weighted area is `4.08` cell faces.
pub proof fn lemma_isolated_voxel(g: Grid3D, c: int)
    requires
        g.wf(),
        0 <= c < g.total_voxels,
        g@ == Seq::new(g.total_voxels as nat, |n: int| n == c),
    ensures
        g.cell_type(c) == 9,
        g.type_count(9, g.total_voxels as int) == 1,
        forall|t: int| t != 9 ==> #[trigger] g.type_count(t, g.total_voxels as int) == 0,
        g.weighted_faces(g.total_voxels as int) == 40800,
{
    g.lemma_index_bijection();
    let (i, j, k) = g.ijk_of(c);
    assert(g.in_bounds(i, j, k) && g.index_of(i, j, k) == c);
    assert forall|a: int, b: int, d: int| g.in_bounds(a, b, d) && (a, b, d) != (i, j, k) implies !g.occupied_at(a, b, d) by {
        let n = g.index_of(a, b, d);
        assert(g.ijk_of(n) == (a, b, d));
        assert(n != c);
    }
    assert(g.cell_type(c) == 9);
    assert forall|t: int| #[trigger] g.type_count(t, g.total_voxels as int) == if t == 9 { 1nat } else { 0nat } by {
        lemma_isolated_counts(g, c, t, g.total_voxels as int);
    }
    lemma_isolated_weight(g, c, g.total_voxels as int);
}

proof fn lemma_isolated_counts(g: Grid3D, c: int, t: int, upto: int)
    requires
        g.wf(),
        0 <= c < g.total_voxels,
        0 <= upto <= g.total_voxels,
        g@ == Seq::new(g.total_voxels as nat, |n: int| n == c),
        g.cell_type(c) == 9,
    ensures
        g.type_count(t, upto) == if t == 9 && upto > c { 1nat } else { 0nat },
    decreases upto,
{
    if upto > 0 {
        lemma_isolated_counts(g, c, t, upto - 1);
    }
}

proof fn lemma_isolated_weight(g: Grid3D, c: int, upto: int)
    requires
        g.wf(),
        0 <= c < g.total_voxels,
        0 <= upto <= g.total_voxels,
        g@ == Seq::new(g.total_voxels as nat, |n: int| n == c),
        g.cell_type(c) == 9,
    ensures
        g.weighted_faces(upto) == if upto > c { 40800int } else { 0int },
    decreases upto,
{
    if upto > 0 {
        lemma_isolated_weight(g, c, upto - 1);
    }
}

} // verus!
