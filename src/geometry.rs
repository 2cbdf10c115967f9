//! Bounding-box sizer: lattice dimensions and origin from a set of atoms,
//! following the legacy padding and alignment rules.
use crate::grid::{cell_size_ok, dims_ok, Grid3D};
use crate::raster::{atoms_ok, Atom};
use crate::length_ok;
use vstd::prelude::*;

verus! {

/// Largest van der Waals radius assumed when padding (2 Å).
pub const MAX_VDW: i64 = 2000;

/// Radii at or above this (100 Å) mark an atom as invalid.
pub const RADIUS_SENTINEL: i64 = 100_000;

/// Computed grid parameters: bounds (length units), dimensions and cell size.
#[derive(Clone, Copy, Debug)]
pub struct GridParams {
    pub xmin: i64,
    pub xmax: i64,
    pub ymin: i64,
    pub ymax: i64,
    pub zmin: i64,
    pub zmax: i64,
    pub len_i: usize,
    pub len_j: usize,
    pub len_k: usize,
    pub grid: i64,
}

/// An atom takes part in the bounding box when `0 < radius < 100 Å`.
pub open spec fn valid_radius(r: int) -> bool {
    0 < r < RADIUS_SENTINEL
}

/// Number of atoms with a valid radius.
pub open spec fn valid_count(atoms: Seq<Atom>) -> nat
    decreases atoms.len(),
{
    if atoms.len() == 0 {
        0
    } else {
        valid_count(atoms.drop_last()) + if valid_radius(atoms.last().radius as int) {
            1nat
        } else {
            0nat
        }
    }
}

/// Per-axis (min, max) of the valid atoms' centres, as
/// (xmin, xmax, ymin, ymax, zmin, zmax); `None` when no atom is valid.
pub open spec fn bounds_of(atoms: Seq<Atom>) -> Option<(int, int, int, int, int, int)>
    decreases atoms.len(),
{
    if atoms.len() == 0 {
        None
    } else {
        let prev = bounds_of(atoms.drop_last());
        let a = atoms.last();
        if !valid_radius(a.radius as int) {
            prev
        } else {
            match prev {
                None => Some((a.x as int, a.x as int, a.y as int, a.y as int, a.z as int, a.z as int)),
                Some(b) => Some(
                    (
                        min(b.0, a.x as int),
                        max(b.1, a.x as int),
                        min(b.2, a.y as int),
                        max(b.3, a.y as int),
                        min(b.4, a.z as int),
                        max(b.5, a.z as int),
                    ),
                ),
            }
        }
    }
}

/// Smaller of two integers.
pub open spec fn min(a: int, b: int) -> int {
    if a <= b {
        a
    } else {
        b
    }
}

/// Larger of two integers.
pub open spec fn max(a: int, b: int) -> int {
    if a >= b {
        a
    } else {
        b
    }
}

/// Quotient truncated toward zero, for `b > 0`.
pub open spec fn trunc_div(a: int, b: int) -> int {
    if a >= 0 {
        a / b
    } else {
        -((-a) / b)
    }
}

/// Quotient rounded up, for `b > 0`.
pub open spec fn ceil_div(a: int, b: int) -> int {
    -((-a) / b)
}

/// Truncate `value / (4 grid)` toward zero, step one block down, scale back.
pub open spec fn align_down_four_spec(value: int, grid: int) -> int {
    (trunc_div(value, 4 * grid) - 1) * (4 * grid)
}

/// Truncate `value / (4 grid)` toward zero, step one block up, scale back.
pub open spec fn align_up_four_spec(value: int, grid: int) -> int {
    (trunc_div(value, 4 * grid) + 1) * (4 * grid)
}

/// A boundary already on a four-cell block (`k` blocks from zero, `k >= 0`)
/// still moves one whole block outward when aligned, in either direction.
pub proof fn lemma_aligned_boundary_moves_out(k: int, grid: int)
    requires
        k >= 0,
        grid > 0,
    ensures
        align_down_four_spec(k * (4 * grid), grid) == (k - 1) * (4 * grid),
        align_up_four_spec(k * (4 * grid), grid) == (k + 1) * (4 * grid),
{
    let b = 4 * grid;
    assert(k * b >= 0) by (nonlinear_arith)
        requires k >= 0, b > 0;
    vstd::arithmetic::div_mod::lemma_fundamental_div_mod_converse(k * b, b, k, 0);
}

/// Second padding: `ceil(probe / grid) + 2` cells, when that is positive.
pub open spec fn safety_padding(probe: int, grid: int) -> int {
    let cells = ceil_div(probe, grid) + 2;
    if cells > 0 {
        cells * grid
    } else {
        0
    }
}

/// Cells along an axis: `ceil(span / 4 + 1) * 4` with `span` in cells,
/// zero when that is negative.
pub open spec fn dimension_spec(min: int, max: int, grid: int) -> int {
    let blocks = ceil_div(max - min, 4 * grid) + 1;
    if blocks > 0 {
        blocks * 4
    } else {
        0
    }
}

/// `dimension_spec`, saturated at the largest machine word.
pub open spec fn dimension_len(min: int, max: int, grid: int) -> int {
    let d = dimension_spec(min, max, grid);
    if d <= usize::MAX {
        d
    } else {
        usize::MAX as int
    }
}

/// Lower bound of one axis from the atoms' minimum.
pub open spec fn padded_min(lo: int, probe: int, grid: int) -> int {
    align_down_four_spec(lo - (MAX_VDW + probe + 2 * grid), grid) - safety_padding(probe, grid)
}

/// Upper bound of one axis from the atoms' maximum.
pub open spec fn padded_max(hi: int, probe: int, grid: int) -> int {
    align_up_four_spec(hi + (MAX_VDW + probe + 2 * grid), grid) + safety_padding(probe, grid)
}

/// `a / b` truncated toward zero.
pub(crate) fn trunc_div_exec(a: i64, b: i64) -> (q: i64)
    requires
        b > 0,
        -16 * crate::LENGTH_LIMIT <= a <= 16 * crate::LENGTH_LIMIT,
    ensures
        q == trunc_div(a as int, b as int),
        q * b <= a <= q * b + b - 1 || q * b - b + 1 <= a <= q * b,
        -16 * crate::LENGTH_LIMIT <= q <= 16 * crate::LENGTH_LIMIT,
        a >= 0 ==> 0 <= q * b <= a,
        a < 0 ==> a <= q * b <= 0,
{
    if a >= 0 {
        let q = a / b;
        proof {
            vstd::arithmetic::div_mod::lemma_fundamental_div_mod(a as int, b as int);
            assert(0 <= q <= a) by (nonlinear_arith)
                requires a == b * q + (a % b), 0 <= a % b < b, b >= 1, a >= 0;
            assert(0 <= q * b) by (nonlinear_arith)
                requires q >= 0, b > 0;
        }
        q
    } else {
        let p = -a;
        let q = p / b;
        proof {
            vstd::arithmetic::div_mod::lemma_fundamental_div_mod(p as int, b as int);
            assert(0 <= q <= p) by (nonlinear_arith)
                requires p == b * q + (p % b), 0 <= p % b < b, b >= 1, p >= 0;
            assert(0 <= q * b) by (nonlinear_arith)
                requires q >= 0, b > 0;
            assert((-q) * b == -(q * b)) by (nonlinear_arith);
        }
        -q
    }
}

/// Align a lower bound down to a multiple of four cells, one block further
/// out than truncation toward zero gives.
pub fn align_down_four(value: i64, grid: i64) -> (r: i64)
    requires
        cell_size_ok(grid),
        -8 * crate::LENGTH_LIMIT <= value <= 8 * crate::LENGTH_LIMIT,
    ensures
        r == align_down_four_spec(value as int, grid as int),
        -16 * crate::LENGTH_LIMIT <= r <= 16 * crate::LENGTH_LIMIT,
{
    let block = 4 * grid;
    let t = trunc_div_exec(value, block);
    proof {
        assert(-12 * crate::LENGTH_LIMIT <= (t - 1) * block <= 12 * crate::LENGTH_LIMIT) by (nonlinear_arith)
            requires -8 * crate::LENGTH_LIMIT <= value <= 8 * crate::LENGTH_LIMIT,
                value >= 0 ==> 0 <= t * block <= value, value < 0 ==> value <= t * block <= 0,
                0 < block <= 4 * crate::LENGTH_LIMIT;
    }
    (t - 1) * block
}

/// Align an upper bound up to a multiple of four cells, one block further
/// out than truncation toward zero gives.
pub fn align_up_four(value: i64, grid: i64) -> (r: i64)
    requires
        cell_size_ok(grid),
        -8 * crate::LENGTH_LIMIT <= value <= 8 * crate::LENGTH_LIMIT,
    ensures
        r == align_up_four_spec(value as int, grid as int),
        -16 * crate::LENGTH_LIMIT <= r <= 16 * crate::LENGTH_LIMIT,
{
    let block = 4 * grid;
    let t = trunc_div_exec(value, block);
    proof {
        assert(-12 * crate::LENGTH_LIMIT <= (t + 1) * block <= 12 * crate::LENGTH_LIMIT) by (nonlinear_arith)
            requires -8 * crate::LENGTH_LIMIT <= value <= 8 * crate::LENGTH_LIMIT,
                value >= 0 ==> 0 <= t * block <= value, value < 0 ==> value <= t * block <= 0,
                0 < block <= 4 * crate::LENGTH_LIMIT;
    }
    (t + 1) * block
}

/// `a / b` rounded up.
fn ceil_div_exec(a: i64, b: i64) -> (q: i64)
    requires
        0 < b <= 4 * crate::LENGTH_LIMIT,
        -64 * crate::LENGTH_LIMIT <= a <= 64 * crate::LENGTH_LIMIT,
    ensures
        q == ceil_div(a as int, b as int),
        q * b - b < a <= q * b,
        -64 * crate::LENGTH_LIMIT <= q <= 64 * crate::LENGTH_LIMIT,
{
    if a <= 0 {
        let p = -a;
        let f = p / b;
        proof {
            vstd::arithmetic::div_mod::lemma_fundamental_div_mod(p as int, b as int);
            assert(0 <= f <= p) by (nonlinear_arith)
                requires p == b * f + (p % b), 0 <= p % b < b, b >= 1, p >= 0;
            assert((-f) * b - b < a <= (-f) * b) by (nonlinear_arith)
                requires p == b * f + (p % b), 0 <= p % b < b, p == -a;
        }
        -f
    } else {
        let q = (a + b - 1) / b;
        proof {
            let s = (a + b - 1) as int % (b as int);
            vstd::arithmetic::div_mod::lemma_fundamental_div_mod((a + b - 1) as int, b as int);
            assert(-a == b * (-q) + (b - 1 - s)) by (nonlinear_arith)
                requires a + b - 1 == b * q + s;
            vstd::arithmetic::div_mod::lemma_fundamental_div_mod_converse(-a, b as int, -q, b - 1 - s);
            assert(0 <= q <= a) by (nonlinear_arith)
                requires a + b - 1 == b * q + s, 0 <= s < b, b >= 1, a > 0;
            assert(q * b - b < a <= q * b) by (nonlinear_arith)
                requires a + b - 1 == b * q + s, 0 <= s < b;
        }
        q
    }
}

/// Cells along one axis: `ceil(((max - min) / grid) / 4 + 1) * 4`.
fn calculate_dimension(min: i64, max: i64, grid: i64) -> (r: usize)
    requires
        cell_size_ok(grid),
        -32 * crate::LENGTH_LIMIT <= min <= 32 * crate::LENGTH_LIMIT,
        -32 * crate::LENGTH_LIMIT <= max <= 32 * crate::LENGTH_LIMIT,
    ensures
        r == dimension_len(min as int, max as int, grid as int),
{
    let blocks = ceil_div_exec(max - min, 4 * grid) + 1;
    if blocks > 0 {
        let cells = (blocks * 4) as u64;
        if cells <= usize::MAX as u64 {
            cells as usize
        } else {
            usize::MAX
        }
    } else {
        0
    }
}

/// Safety padding of `ceil(probe / grid) + 2` cells, when positive.
fn safety_padding_exec(probe: i64, grid: i64) -> (r: i64)
    requires
        cell_size_ok(grid),
        length_ok(probe),
    ensures
        r == safety_padding(probe as int, grid as int),
        0 <= r <= 4 * crate::LENGTH_LIMIT,
{
    let cells = ceil_div_exec(probe, grid) + 2;
    if cells > 0 {
        proof {
            assert(cells * grid <= 4 * crate::LENGTH_LIMIT) by (nonlinear_arith)
                requires (cells - 2) * grid - grid < probe, probe <= crate::LENGTH_LIMIT, 0 < grid
                    <= crate::LENGTH_LIMIT;
            assert(cells * grid > 0) by (nonlinear_arith)
                requires cells > 0, grid > 0;
        }
        cells * grid
    } else {
        0
    }
}

/// The parameters that `from_atoms` derives from the valid atoms' bounds.
pub open spec fn params_match(p: GridParams, b: (int, int, int, int, int, int), probe: int, grid: int) -> bool {
    &&& p.xmin == padded_min(b.0, probe, grid)
    &&& p.xmax == padded_max(b.1, probe, grid)
    &&& p.ymin == padded_min(b.2, probe, grid)
    &&& p.ymax == padded_max(b.3, probe, grid)
    &&& p.zmin == padded_min(b.4, probe, grid)
    &&& p.zmax == padded_max(b.5, probe, grid)
    &&& p.len_i == dimension_len(p.xmin as int, p.xmax as int, grid)
    &&& p.len_j == dimension_len(p.ymin as int, p.ymax as int, grid)
    &&& p.len_k == dimension_len(p.zmin as int, p.zmax as int, grid)
    &&& p.grid == grid
}

/// Bounds of one axis after both paddings.
fn pad_axis(lo: i64, hi: i64, probe: i64, grid: i64) -> (r: (i64, i64))
    requires
        cell_size_ok(grid),
        length_ok(probe),
        length_ok(lo),
        length_ok(hi),
    ensures
        r.0 == padded_min(lo as int, probe as int, grid as int),
        r.1 == padded_max(hi as int, probe as int, grid as int),
        -32 * crate::LENGTH_LIMIT <= r.0 <= 32 * crate::LENGTH_LIMIT,
        -32 * crate::LENGTH_LIMIT <= r.1 <= 32 * crate::LENGTH_LIMIT,
{
    let fact = MAX_VDW + probe + 2 * grid;
    let padding = safety_padding_exec(probe, grid);
    let lo_aligned = align_down_four(lo - fact, grid);
    let hi_aligned = align_up_four(hi + fact, grid);
    (lo_aligned - padding, hi_aligned + padding)
}

impl GridParams {
    /// Grid parameters for `atoms`, or `None` when fewer than three atoms
    /// have a valid radius (`0 < radius < 100 Å`). Each axis spans the valid
    /// atoms' centres, padded by `MAX_VDW + probe + 2 grid`, aligned outward
    /// to four-cell blocks one block past truncation, then padded again by
    /// `ceil(probe / grid) + 2` cells.
    #[verifier::spinoff_prover]
    #[verifier::rlimit(40)]
    pub fn from_atoms(atoms: &[Atom], probe: i64, grid: i64) -> (r: Option<GridParams>)
        requires
            atoms_ok(atoms@),
            length_ok(probe),
            cell_size_ok(grid),
        ensures
            r is None <==> (atoms@.len() < 3 || valid_count(atoms@) < 3),
            r matches Some(p) ==> bounds_of(atoms@) matches Some(b) && params_match(p, b, probe as int, grid as int),
    {
        if atoms.len() < 3 {
            return None;
        }
        let mut min_x: i64 = i64::MAX;
        let mut min_y: i64 = i64::MAX;
        let mut min_z: i64 = i64::MAX;
        let mut max_x: i64 = i64::MIN;
        let mut max_y: i64 = i64::MIN;
        let mut max_z: i64 = i64::MIN;
        let mut counted: usize = 0;
        let mut t: usize = 0;
        while t < atoms.len()
            invariant
                0 <= t <= atoms.len(),
                atoms_ok(atoms@),
                counted == valid_count(atoms@.subrange(0, t as int)),
                counted <= t,
                counted == 0 <==> bounds_of(atoms@.subrange(0, t as int)) is None,
                counted > 0 ==> bounds_of(atoms@.subrange(0, t as int)) == Some(
                    (min_x as int, max_x as int, min_y as int, max_y as int, min_z as int, max_z as int),
                ),
                counted > 0 ==> length_ok(min_x) && length_ok(max_x) && length_ok(min_y) && length_ok(max_y)
                    && length_ok(min_z) && length_ok(max_z),
            decreases atoms.len() - t,
        {
            let atom = &atoms[t];
            proof {
                let pre = atoms@.subrange(0, t + 1);
                assert(pre.drop_last() =~= atoms@.subrange(0, t as int));
                assert(pre.last() == atoms@[t as int]);
                assert(atoms@[t as int].wf());
            }
            let r = atom.radius;
            if r <= 0 || r >= RADIUS_SENTINEL {
                t = t + 1;
                continue;
            }
            if counted == 0 {
                min_x = atom.x;
                max_x = atom.x;
                min_y = atom.y;
                max_y = atom.y;
                min_z = atom.z;
                max_z = atom.z;
            } else {
                if atom.x < min_x {
                    min_x = atom.x;
                }
                if atom.x > max_x {
                    max_x = atom.x;
                }
                if atom.y < min_y {
                    min_y = atom.y;
                }
                if atom.y > max_y {
                    max_y = atom.y;
                }
                if atom.z < min_z {
                    min_z = atom.z;
                }
                if atom.z > max_z {
                    max_z = atom.z;
                }
            }
            counted = counted + 1;
            t = t + 1;
        }
        proof {
            assert(atoms@.subrange(0, atoms.len() as int) =~= atoms@);
        }
        if counted < 3 {
            return None;
        }
        let (xmin, xmax) = pad_axis(min_x, max_x, probe, grid);
        let (ymin, ymax) = pad_axis(min_y, max_y, probe, grid);
        let (zmin, zmax) = pad_axis(min_z, max_z, probe, grid);
        let len_i = calculate_dimension(xmin, xmax, grid);
        let len_j = calculate_dimension(ymin, ymax, grid);
        let len_k = calculate_dimension(zmin, zmax, grid);
        Some(GridParams { xmin, xmax, ymin, ymax, zmin, zmax, len_i, len_j, len_k, grid })
    }

    /// Instantiate an empty lattice with these dimensions, cell size and
    /// origin at the minimum corner.
    pub fn build_grid(&self) -> (r: Grid3D)
        requires
            dims_ok(self.len_i as int, self.len_j as int, self.len_k as int),
            cell_size_ok(self.grid),
            length_ok(self.xmin),
            length_ok(self.ymin),
            length_ok(self.zmin),
        ensures
            r.wf(),
            r.len_i == self.len_i,
            r.len_j == self.len_j,
            r.len_k == self.len_k,
            r.grid_size == self.grid,
            r.x_shift == self.xmin,
            r.y_shift == self.ymin,
            r.z_shift == self.zmin,
            r@ == Seq::new(r.total_voxels as nat, |_i: int| false),
    {
        let mut grid = Grid3D::new(self.len_i, self.len_j, self.len_k, self.grid);
        grid.x_shift = self.xmin;
        grid.y_shift = self.ymin;
        grid.z_shift = self.zmin;
        grid
    }
}

} // verus!
