//! Multi-atom accessible-volume fill and exclusion contraction (erosion).
use crate::bits::count_true;
use crate::grid::Grid3D;
use vstd::prelude::*;

verus! {

/// An atom in length units: centre (x, y, z) and radius.
#[derive(Clone, Copy, Debug)]
pub struct Atom {
    pub x: i64,
    pub y: i64,
    pub z: i64,
    pub radius: i64,
}

impl Atom {
    /// Every coordinate and the radius are within the accepted range.
    pub open spec fn wf(&self) -> bool {
        crate::length_ok(self.x) && crate::length_ok(self.y) && crate::length_ok(self.z) && crate::length_ok(
            self.radius,
        )
    }
}

/// Every atom of the sequence is within the accepted range.
pub open spec fn atoms_ok(atoms: Seq<Atom>) -> bool {
    forall|t: int| 0 <= t < atoms.len() ==> (#[trigger] atoms[t]).wf()
}

/// Square of an integer.
pub open spec fn sq(x: int) -> int {
    x * x
}

impl Grid3D {
    /// Whether cell (i, j, k) lies strictly inside the sphere of radius
    /// `radius + probe` around `a`, measured from the cell's corner point.
    pub open spec fn atom_covers(&self, a: Atom, probe: int, i: int, j: int, k: int) -> bool {
        let r = a.radius + probe;
        let g = self.grid_size as int;
        &&& r > 0
        &&& sq(a.x - self.x_shift - i * g) + sq(a.y - self.y_shift - j * g) + sq(a.z - self.z_shift - k * g) < r * r
    }

    /// Whether some atom of `atoms` covers the cell with linear index `n`.
    pub open spec fn covered_at(&self, atoms: Seq<Atom>, probe: int, n: int) -> bool {
        exists|t: int| 0 <= t < atoms.len() && #[trigger] self.atom_covers_cell(atoms[t], probe, n)
    }

    /// `atom_covers` for the cell with linear index `n`.
    pub open spec fn atom_covers_cell(&self, a: Atom, probe: int, n: int) -> bool {
        let (i, j, k) = self.ijk_of(n);
        self.atom_covers(a, probe, i, j, k)
    }

    /// Accessible volume of `atoms`: occupancy by linear index.
    pub open spec fn accessible(&self, atoms: Seq<Atom>, probe: int) -> Seq<bool> {
        Seq::new(self.total_voxels as nat, |n: int| self.covered_at(atoms, probe, n))
    }
}

/// Atoms of the `c`-th chunk of `chunk_size` consecutive atoms.
pub open spec fn chunk_of(atoms: Seq<Atom>, chunk_size: int, c: int) -> Seq<Atom> {
    let lo = c * chunk_size;
    let hi = if (c + 1) * chunk_size < atoms.len() {
        (c + 1) * chunk_size
    } else {
        atoms.len() as int
    };
    atoms.subrange(lo, hi)
}

/// Number of chunks of `chunk_size` atoms that cover `len` atoms.
pub open spec fn chunk_count(len: int, chunk_size: int) -> int {
    (len + chunk_size - 1) / chunk_size
}

/// Occupancy of cell `n` when each chunk of `chunk_size` atoms is
/// rasterized on its own and the results are combined by OR.
pub open spec fn chunked_cover(g: Grid3D, atoms: Seq<Atom>, probe: int, chunk_size: int, n: int) -> bool {
    exists|c: int|
        0 <= c < chunk_count(atoms.len() as int, chunk_size) && #[trigger] g.covered_at(
            chunk_of(atoms, chunk_size, c),
            probe,
            n,
        )
}

/// Whether the displacement (di, dj, dk), in cells, lies strictly inside a
/// ball of radius `probe` (length units) on a lattice of cell size `cell`.
pub open spec fn in_ball_strict(di: int, dj: int, dk: int, probe: int, cell: int) -> bool {
    probe > 0 && (di * di + dj * dj + dk * dk) * (cell * cell) < probe * probe
}

/// Whether `o` is the linear shift of a displacement strictly inside the
/// ball, on a lattice whose first two axes have `len_i` and `len_j` cells.
pub open spec fn is_ball_shift(o: int, probe: int, cell: int, len_i: int, len_j: int) -> bool {
    exists|di: int, dj: int, dk: int|
        #![trigger in_ball_strict(di, dj, dk, probe, cell), di + dj * len_i + dk * len_i * len_j]
        in_ball_strict(di, dj, dk, probe, cell) && o == di + dj * len_i + dk * len_i * len_j
}

impl Grid3D {
    /// An empty cell with at least one occupied face neighbour.
    pub open spec fn is_boundary(&self, index: int) -> bool {
        !self@[index] && self.has_filled_neighbor_at(index)
    }

    /// Occupancy of cell `n` after contracting by `probe`: it was occupied,
    /// and no boundary cell reaches it through the ball of radius `probe`.
    pub open spec fn contracted_at(&self, probe: int, n: int) -> bool {
        &&& self@[n]
        &&& !exists|c: int|
            #![trigger self.is_boundary(c), is_ball_shift(n - c, probe, self.grid_size as int, self.len_i as int, self.len_j as int)]
            0 <= c < self.total_voxels && self.is_boundary(c) && is_ball_shift(
                n - c,
                probe,
                self.grid_size as int,
                self.len_i as int,
                self.len_j as int,
            )
    }
}

/// Smallest `q` with `q * b >= a`, for `a >= 0` and `b > 0`.
fn ceil_div_nonneg(a: i64, b: i64) -> (q: i64)
    requires
        a >= 0,
        b > 0,
    ensures
        q >= 0,
        q * b >= a,
        q == 0 || (q - 1) * b < a,
        q <= a,
{
    let q = a / b;
    let r = a % b;
    proof {
        vstd::arithmetic::div_mod::lemma_fundamental_div_mod(a as int, b as int);
        assert(q <= a) by (nonlinear_arith)
            requires a == b * q + r, b >= 1, q >= 0, r >= 0;
    }
    if r == 0 {
        proof {
            assert((q - 1) * b < a) by (nonlinear_arith)
                requires a == b * q, b > 0;
        }
        q
    } else {
        proof {
            assert(q + 1 <= a) by (nonlinear_arith)
                requires a == b * q + r, b >= 1, q >= 0, 0 < r < b;
            assert((q + 1) * b >= a) by (nonlinear_arith)
                requires a == b * q + r, r < b;
            assert(q * b < a) by (nonlinear_arith)
                requires a == b * q + r, r > 0;
        }
        q + 1
    }
}

/// Largest `q` with `q * b <= a`, for `b > 0`.
fn floor_div(a: i64, b: i64) -> (q: i64)
    requires
        b > 0,
        -8 * crate::LENGTH_LIMIT <= a <= 8 * crate::LENGTH_LIMIT,
    ensures
        q * b <= a < q * b + b,
        -8 * crate::LENGTH_LIMIT <= q <= 8 * crate::LENGTH_LIMIT,
{
    if a >= 0 {
        let q = a / b;
        proof {
            vstd::arithmetic::div_mod::lemma_fundamental_div_mod(a as int, b as int);
            assert(0 <= q <= a) by (nonlinear_arith)
                requires a == b * q + (a % b), 0 <= a % b < b, b >= 1, a >= 0;
        }
        q
    } else {
        let c = ceil_div_nonneg(-a, b);
        proof {
            assert((-c) * b <= a) by (nonlinear_arith)
                requires c * b >= -a;
            assert(a < (-c) * b + b) by (nonlinear_arith)
                requires c == 0 || (c - 1) * b < -a, a < 0, b > 0;
        }
        -c
    }
}

/// Smallest `q` with `q * b >= a`, for `b > 0`.
fn ceil_div_signed(a: i64, b: i64) -> (q: i64)
    requires
        b > 0,
        -8 * crate::LENGTH_LIMIT <= a <= 8 * crate::LENGTH_LIMIT,
    ensures
        q * b - b < a <= q * b,
        -8 * crate::LENGTH_LIMIT <= q <= 8 * crate::LENGTH_LIMIT,
{
    let f = floor_div(-a, b);
    proof {
        assert((-f) * b >= a) by (nonlinear_arith)
            requires f * b <= -a;
        assert((-f) * b - b < a) by (nonlinear_arith)
            requires -a < f * b + b;
    }
    -f
}

/// Along one axis: a cell whose offset from the centre is shorter than `r`
/// lies strictly between the box bounds `lo` and `hi`.
proof fn lemma_axis_in_box(c: int, r: int, g: int, lo: int, hi: int, i: int)
    requires
        sq(c - i * g) < r * r,
        r > 0,
        g > 0,
        lo * g <= c - r - g,
        hi * g >= c + r + g,
    ensures
        lo < i < hi,
{
    let d = c - i * g;
    assert(-r < d < r) by (nonlinear_arith)
        requires d * d < r * r, r > 0;
    assert(lo * g < i * g);
    assert(i * g < hi * g);
    assert(lo < i) by (nonlinear_arith)
        requires lo * g < i * g, g > 0;
    assert(i < hi) by (nonlinear_arith)
        requires i * g < hi * g, g > 0;
}

/// Inside the box the offset from the centre stays within `r + 2 g`.
proof fn lemma_offset_bound(c: int, r: int, g: int, lo: int, hi: int, i: int)
    requires
        lo * g > c - r - 2 * g,
        hi * g < c + r + 2 * g,
        lo <= i <= hi,
        g > 0,
        0 < r <= 2 * crate::LENGTH_LIMIT,
        g <= crate::LENGTH_LIMIT,
        -2 * crate::LENGTH_LIMIT <= c <= 2 * crate::LENGTH_LIMIT,
    ensures
        -(r + 2 * g) < c - i * g < r + 2 * g,
        -6 * crate::LENGTH_LIMIT <= i * g <= 6 * crate::LENGTH_LIMIT,
        (c - i * g) * (c - i * g) <= 16_000_000_000_000_000_000_000_000,
        (c - i * g) * (c - i * g) >= 0,
{
    assert(lo * g <= i * g <= hi * g) by (nonlinear_arith)
        requires lo <= i <= hi, g > 0;
    let d = c - i * g;
    let m = r + 2 * g;
    assert(d * d <= m * m) by (nonlinear_arith)
        requires -m < d < m;
    assert(m * m <= 16_000_000_000_000_000_000_000_000) by (nonlinear_arith)
        requires 0 < m <= 4_000_000_000_000;
    assert(d * d >= 0) by (nonlinear_arith);
}

/// A covered cell has each axis term below the squared radius.
proof fn lemma_cover_terms(a: int, b: int, c: int, r2: int)
    requires
        sq(a) + sq(b) + sq(c) < r2,
    ensures
        sq(a) < r2,
        sq(b) < r2,
        sq(c) < r2,
{
    assert(sq(a) >= 0 && sq(b) >= 0 && sq(c) >= 0) by (nonlinear_arith);
}

/// Lexicographic order of cell coordinates, i slowest.
pub open spec fn lex_lt(t: (int, int, int), i: int, j: int, k: int) -> bool {
    t.0 < i || (t.0 == i && t.1 < j) || (t.0 == i && t.1 == j && t.2 < k)
}

/// Mark in `flags` every cell that `a` covers.
#[verifier::spinoff_prover]
#[verifier::rlimit(40)]
fn mark_atom(grid: &Grid3D, flags: &mut Vec<bool>, a: &Atom, probe: i64)
    requires
        grid.wf(),
        old(flags).len() == grid.total_voxels,
        a.wf(),
        crate::length_ok(probe),
    ensures
        final(flags).len() == old(flags).len(),
        forall|n: int|
            0 <= n < grid.total_voxels ==> #[trigger] final(flags)@[n] == (old(flags)@[n] || grid.atom_covers_cell(
                *a,
                probe as int,
                n,
            )),
{
    let ghost pr = probe as int;
    let ghost total = grid.total_voxels as int;
    proof {
        grid.lemma_index_bijection();
    }
    let r = a.radius + probe;
    if r <= 0 {
        assert(flags@ =~= old(flags)@);
        return;
    }
    let gs = grid.grid_size;
    let cx = a.x - grid.x_shift;
    let cy = a.y - grid.y_shift;
    let cz = a.z - grid.z_shift;
    let ilo = floor_div(cx - r - gs, gs);
    let jlo = floor_div(cy - r - gs, gs);
    let klo = floor_div(cz - r - gs, gs);
    let ihi = ceil_div_signed(cx + r + gs, gs);
    let jhi = ceil_div_signed(cy + r + gs, gs);
    let khi = ceil_div_signed(cz + r + gs, gs);
    proof {
        assert forall|n: int| 0 <= n < total && #[trigger] grid.atom_covers_cell(*a, pr, n) implies {
            let (p, q, w) = grid.ijk_of(n);
            ilo < p < ihi && jlo < q < jhi && klo < w < khi
        } by {
            let (p, q, w) = grid.ijk_of(n);
            let g = gs as int;
            lemma_cover_terms(cx - p * g, cy - q * g, cz - w * g, r * r);
            lemma_axis_in_box(cx as int, r as int, g, ilo as int, ihi as int, p);
            lemma_axis_in_box(cy as int, r as int, g, jlo as int, jhi as int, q);
            lemma_axis_in_box(cz as int, r as int, g, klo as int, khi as int, w);
        }
    }
    proof {
        crate::grid::lemma_dims_products(grid.len_i as int, grid.len_j as int, grid.len_k as int);
        assert(grid.len_k <= grid.total_voxels) by (nonlinear_arith)
            requires grid.total_voxels == grid.len_i * grid.len_j * grid.len_k, grid.len_i * grid.len_j >= 1;
    }
    let li = grid.len_i as i64;
    let lj = grid.len_j as i64;
    let lk = grid.len_k as i64;
    if ihi < 0 || jhi < 0 || khi < 0 || ilo >= li || jlo >= lj || klo >= lk {
        proof {
            assert forall|n: int| 0 <= n < total implies !#[trigger] grid.atom_covers_cell(*a, pr, n) by {
                if grid.atom_covers_cell(*a, pr, n) {
                    let t = grid.ijk_of(n);
                    assert(grid.in_bounds(t.0, t.1, t.2));
                    assert(ilo < t.0 < ihi && jlo < t.1 < jhi && klo < t.2 < khi);
                }
            }
        }
        assert(flags@ =~= old(flags)@);
        return;
    }
    proof {
        let g = gs as int;
        assert(ilo < ihi && jlo < jhi && klo < khi) by (nonlinear_arith)
            requires ilo * g <= cx - r - g, ihi * g >= cx + r + g, jlo * g <= cy - r - g, jhi * g >= cy + r + g,
                klo * g <= cz - r - g, khi * g >= cz + r + g, g > 0, r > 0;
        assert((r as int) * (r as int) <= 4_000_000_000_000_000_000_000_000) by (nonlinear_arith)
            requires 0 < r <= 2_000_000_000_000;
    }
    let i0: usize = if ilo < 0 { 0 } else { ilo as usize };
    let j0: usize = if jlo < 0 { 0 } else { jlo as usize };
    let k0: usize = if klo < 0 { 0 } else { klo as usize };
    let i1: usize = if ihi >= li { (li - 1) as usize } else { ihi as usize };
    let j1: usize = if jhi >= lj { (lj - 1) as usize } else { jhi as usize };
    let k1: usize = if khi >= lk { (lk - 1) as usize } else { khi as usize };
    let g128 = gs as i128;
    let r2 = (r as i128) * (r as i128);
    let mut i: usize = i0;
    while i <= i1
        invariant
            grid.wf(),
            flags.len() == total,
            total == grid.total_voxels,
            i0 <= i <= i1 + 1,
            ilo <= i0,
            i0 <= i1,
            j0 <= j1,
            k0 <= k1,
            jlo <= j0,
            klo <= k0,
            i1 <= ihi,
            j1 <= jhi,
            k1 <= khi,
            ilo * gs > cx - r - 2 * gs,
            jlo * gs > cy - r - 2 * gs,
            klo * gs > cz - r - 2 * gs,
            ihi * gs < cx + r + 2 * gs,
            jhi * gs < cy + r + 2 * gs,
            khi * gs < cz + r + 2 * gs,
            0 < r <= 2 * crate::LENGTH_LIMIT,
            0 < gs <= crate::LENGTH_LIMIT,
            gs == grid.grid_size,
            g128 == gs,
            r2 == r * r,
            -2 * crate::LENGTH_LIMIT <= cx <= 2 * crate::LENGTH_LIMIT,
            -2 * crate::LENGTH_LIMIT <= cy <= 2 * crate::LENGTH_LIMIT,
            -2 * crate::LENGTH_LIMIT <= cz <= 2 * crate::LENGTH_LIMIT,
            cx == a.x - grid.x_shift,
            cy == a.y - grid.y_shift,
            cz == a.z - grid.z_shift,
            r == a.radius + probe,
            pr == probe,
            i1 < grid.len_i,
            j1 < grid.len_j,
            k1 < grid.len_k,
            forall|n: int|
                0 <= n < total && #[trigger] grid.atom_covers_cell(*a, pr, n) ==> {
                    let (p, q, w) = grid.ijk_of(n);
                    i0 <= p <= i1 && j0 <= q <= j1 && k0 <= w <= k1
                },
            forall|n: int|
                0 <= n < total ==> #[trigger] flags@[n] == (old(flags)@[n] || (grid.atom_covers_cell(*a, pr, n)
                    && grid.ijk_of(n).0 < i)),
        decreases i1 + 1 - i,
    {
        let mut j: usize = j0;
        while j <= j1
            invariant
                grid.wf(),
                flags.len() == total,
                total == grid.total_voxels,
                i0 <= i <= i1,
                j0 <= j <= j1 + 1,
                ilo <= i0,
                i0 <= i1,
                j0 <= j1,
                k0 <= k1,
            i0 <= i1,
            j0 <= j1,
            k0 <= k1,
                jlo <= j0,
                klo <= k0,
                i1 <= ihi,
                j1 <= jhi,
                k1 <= khi,
                ilo * gs > cx - r - 2 * gs,
                jlo * gs > cy - r - 2 * gs,
                klo * gs > cz - r - 2 * gs,
                ihi * gs < cx + r + 2 * gs,
                jhi * gs < cy + r + 2 * gs,
                khi * gs < cz + r + 2 * gs,
                0 < r <= 2 * crate::LENGTH_LIMIT,
                0 < gs <= crate::LENGTH_LIMIT,
                gs == grid.grid_size,
                g128 == gs,
                r2 == r * r,
                -2 * crate::LENGTH_LIMIT <= cx <= 2 * crate::LENGTH_LIMIT,
                -2 * crate::LENGTH_LIMIT <= cy <= 2 * crate::LENGTH_LIMIT,
                -2 * crate::LENGTH_LIMIT <= cz <= 2 * crate::LENGTH_LIMIT,
                cx == a.x - grid.x_shift,
                cy == a.y - grid.y_shift,
                cz == a.z - grid.z_shift,
                r == a.radius + probe,
                pr == probe,
                i1 < grid.len_i,
                j1 < grid.len_j,
                k1 < grid.len_k,
                forall|n: int|
                    0 <= n < total && #[trigger] grid.atom_covers_cell(*a, pr, n) ==> {
                        let (p, q, w) = grid.ijk_of(n);
                        i0 <= p <= i1 && j0 <= q <= j1 && k0 <= w <= k1
                    },
                forall|n: int|
                    0 <= n < total ==> #[trigger] flags@[n] == (old(flags)@[n] || (grid.atom_covers_cell(*a, pr, n)
                        && lex_lt(grid.ijk_of(n), i as int, j as int, 0))),
            decreases j1 + 1 - j,
        {
            let mut k: usize = k0;
            while k <= k1
                invariant
                    grid.wf(),
                    flags.len() == total,
                    total == grid.total_voxels,
                    i0 <= i <= i1,
                    j0 <= j <= j1,
                    k0 <= k <= k1 + 1,
                    ilo <= i0,
                    i0 <= i1,
                    j0 <= j1,
                    k0 <= k1,
                i0 <= i1,
                j0 <= j1,
                k0 <= k1,
            i0 <= i1,
            j0 <= j1,
            k0 <= k1,
                    jlo <= j0,
                    klo <= k0,
                    i1 <= ihi,
                    j1 <= jhi,
                    k1 <= khi,
                    ilo * gs > cx - r - 2 * gs,
                    jlo * gs > cy - r - 2 * gs,
                    klo * gs > cz - r - 2 * gs,
                    ihi * gs < cx + r + 2 * gs,
                    jhi * gs < cy + r + 2 * gs,
                    khi * gs < cz + r + 2 * gs,
                    0 < r <= 2 * crate::LENGTH_LIMIT,
                    0 < gs <= crate::LENGTH_LIMIT,
                    gs == grid.grid_size,
                    g128 == gs,
                    r2 == r * r,
                    -2 * crate::LENGTH_LIMIT <= cx <= 2 * crate::LENGTH_LIMIT,
                    -2 * crate::LENGTH_LIMIT <= cy <= 2 * crate::LENGTH_LIMIT,
                    -2 * crate::LENGTH_LIMIT <= cz <= 2 * crate::LENGTH_LIMIT,
                    cx == a.x - grid.x_shift,
                    cy == a.y - grid.y_shift,
                    cz == a.z - grid.z_shift,
                    r == a.radius + probe,
                    pr == probe,
                    i1 < grid.len_i,
                    j1 < grid.len_j,
                    k1 < grid.len_k,
                    forall|n: int|
                        0 <= n < total && #[trigger] grid.atom_covers_cell(*a, pr, n) ==> {
                            let (p, q, w) = grid.ijk_of(n);
                            i0 <= p <= i1 && j0 <= q <= j1 && k0 <= w <= k1
                        },
                    forall|n: int|
                        0 <= n < total ==> #[trigger] flags@[n] == (old(flags)@[n] || (grid.atom_covers_cell(
                            *a,
                            pr,
                            n,
                        ) && lex_lt(grid.ijk_of(n), i as int, j as int, k as int))),
                decreases k1 + 1 - k,
            {
                proof {
                    lemma_offset_bound(cx as int, r as int, gs as int, ilo as int, ihi as int, i as int);
                    lemma_offset_bound(cy as int, r as int, gs as int, jlo as int, jhi as int, j as int);
                    lemma_offset_bound(cz as int, r as int, gs as int, klo as int, khi as int, k as int);
                }
                let dx = (cx as i128) - (i as i128) * g128;
                let dy = (cy as i128) - (j as i128) * g128;
                let dz = (cz as i128) - (k as i128) * g128;
                let dist2 = dx * dx + dy * dy + dz * dz;
                let idx = grid.ijk_to_index(i, j, k);
                let ghost before = flags@;
                if dist2 < r2 {
                    flags.set(idx, true);
                }
                proof {
                    grid.lemma_index_bijection();
                    assert(grid.in_bounds(i as int, j as int, k as int));
                    assert(grid.index_of(i as int, j as int, k as int) == idx);
                    assert(grid.ijk_of(idx as int) == (i as int, j as int, k as int));
                    assert(grid.atom_covers_cell(*a, pr, idx as int) == (dist2 < r2));
                    assert forall|n: int| 0 <= n < total implies #[trigger] flags@[n] == (old(flags)@[n] || (
                    grid.atom_covers_cell(*a, pr, n) && lex_lt(grid.ijk_of(n), i as int, j as int, k + 1))) by {
                        if n != idx {
                            let t = grid.ijk_of(n);
                            assert(grid.index_of(t.0, t.1, t.2) == n);
                            assert(grid.ijk_of(n) != (i as int, j as int, k as int));
                            assert(flags@[n] == before[n]);
                        }
                    }
                }
                k = k + 1;
            }
            j = j + 1;
        }
        i = i + 1;
    }
}

/// Coverage by a prefix grows by one atom at a time.
proof fn lemma_cover_prefix_step(g: Grid3D, atoms: Seq<Atom>, probe: int, t: int, n: int)
    requires
        0 <= t < atoms.len(),
    ensures
        g.covered_at(atoms.subrange(0, t + 1), probe, n) == (g.covered_at(atoms.subrange(0, t), probe, n)
            || g.atom_covers_cell(atoms[t], probe, n)),
{
    let pre = atoms.subrange(0, t);
    let pre1 = atoms.subrange(0, t + 1);
    if g.covered_at(pre1, probe, n) {
        let u = choose|u: int| 0 <= u < pre1.len() && #[trigger] g.atom_covers_cell(pre1[u], probe, n);
        if u < t {
            assert(pre[u] == pre1[u]);
        }
    }
    if g.covered_at(pre, probe, n) {
        let u = choose|u: int| 0 <= u < pre.len() && #[trigger] g.atom_covers_cell(pre[u], probe, n);
        assert(pre1[u] == pre[u]);
    }
    if g.atom_covers_cell(atoms[t], probe, n) {
        assert(pre1[t] == atoms[t]);
    }
}

/// Combine another worker's cells into `acc` by OR.
pub fn merge_flags(acc: &mut Vec<bool>, other: &[bool])
    requires
        old(acc).len() == other.len(),
    ensures
        final(acc)@ == Seq::new(old(acc)@.len(), |n: int| old(acc)@[n] || other@[n]),
{
    let n = acc.len();
    let mut i: usize = 0;
    while i < n
        invariant
            0 <= i <= n,
            n == acc.len(),
            n == other.len(),
            forall|t: int| 0 <= t < i ==> #[trigger] acc@[t] == (old(acc)@[t] || other@[t]),
            forall|t: int| i <= t < n ==> #[trigger] acc@[t] == old(acc)@[t],
        decreases n - i,
    {
        if other[i] {
            acc.set(i, true);
        }
        i = i + 1;
    }
    assert(acc@ =~= Seq::new(old(acc)@.len(), |t: int| old(acc)@[t] || other@[t]));
}

/// The number of chunks taken is the chunk count of the atom list.
proof fn lemma_chunk_count(len: int, s: int, c: int)
    requires
        s > 0,
        c >= 0,
        c * s >= len,
        len >= 0,
        c == 0 || (c - 1) * s < len,
    ensures
        c == chunk_count(len, s),
{
    let q = (len + s - 1) / s;
    vstd::arithmetic::div_mod::lemma_fundamental_div_mod(len + s - 1, s);
    let r = (len + s - 1) % s;
    assert(c * s >= len);
    if c == 0 {
        assert(len == 0);
        assert(0 <= s - 1 < s);
        vstd::arithmetic::div_mod::lemma_fundamental_div_mod_converse(s - 1, s, 0, s - 1);
    } else {
        assert(len + s - 1 == (c - 1) * s + (len - 1 - (c - 1) * s) + s) by (nonlinear_arith);
        assert(len + s - 1 == c * s + (len - 1 - (c - 1) * s)) by (nonlinear_arith);
        assert(0 <= len - 1 - (c - 1) * s);
        assert(len - 1 - (c - 1) * s < s) by (nonlinear_arith)
            requires c * s >= len, c * s == (c - 1) * s + s;
        vstd::arithmetic::div_mod::lemma_fundamental_div_mod_converse(
            len + s - 1,
            s,
            c,
            len - 1 - (c - 1) * s,
        );
    }
}

/// Rasterizing the atoms in chunks of any positive size and combining the
/// chunks by OR gives the same lattice as rasterizing all atoms at once; so
/// the fill does not depend on how the atoms are shared among workers.
pub proof fn lemma_fill_chunk_independent(g: Grid3D, atoms: Seq<Atom>, probe: int, chunk_a: int, chunk_b: int)
    requires
        chunk_a > 0,
        chunk_b > 0,
    ensures
        forall|n: int|
            #![trigger chunked_cover(g, atoms, probe, chunk_a, n)]
            #![trigger chunked_cover(g, atoms, probe, chunk_b, n)]
            chunked_cover(g, atoms, probe, chunk_a, n) == chunked_cover(g, atoms, probe, chunk_b, n),
        forall|n: int|
            #![trigger chunked_cover(g, atoms, probe, chunk_a, n)]
            chunked_cover(g, atoms, probe, chunk_a, n) == g.covered_at(atoms, probe, n),
{
    assert forall|n: int| chunked_cover(g, atoms, probe, chunk_a, n) == g.covered_at(atoms, probe, n) by {
        lemma_chunked_is_whole(g, atoms, probe, chunk_a, n);
    }
    assert forall|n: int| chunked_cover(g, atoms, probe, chunk_b, n) == g.covered_at(atoms, probe, n) by {
        lemma_chunked_is_whole(g, atoms, probe, chunk_b, n);
    }
    assert forall|n: int|
        chunked_cover(g, atoms, probe, chunk_a, n) == chunked_cover(g, atoms, probe, chunk_b, n) by {
        lemma_chunked_is_whole(g, atoms, probe, chunk_a, n);
        lemma_chunked_is_whole(g, atoms, probe, chunk_b, n);
    }
}

#[verifier::spinoff_prover]
#[verifier::rlimit(40)]
proof fn lemma_chunked_is_whole(g: Grid3D, atoms: Seq<Atom>, probe: int, s: int, n: int)
    requires
        s > 0,
    ensures
        chunked_cover(g, atoms, probe, s, n) == g.covered_at(atoms, probe, n),
{
    let len = atoms.len() as int;
    if chunked_cover(g, atoms, probe, s, n) {
        let c = choose|c: int|
            0 <= c < chunk_count(len, s) && #[trigger] g.covered_at(chunk_of(atoms, s, c), probe, n);
        let ch = chunk_of(atoms, s, c);
        let u = choose|u: int| 0 <= u < ch.len() && #[trigger] g.atom_covers_cell(ch[u], probe, n);
        assert(c * s >= 0) by (nonlinear_arith)
            requires c >= 0, s > 0;
        assert(c * s < len) by {
            assert(c < (len + s - 1) / s);
            vstd::arithmetic::div_mod::lemma_fundamental_div_mod(len + s - 1, s);
            assert(c + 1 <= (len + s - 1) / s);
            assert((c + 1) * s <= s * ((len + s - 1) / s)) by (nonlinear_arith)
                requires c + 1 <= (len + s - 1) / s, s > 0;
            assert(0 <= (len + s - 1) % s);
            assert(c * s + s == (c + 1) * s) by (nonlinear_arith);
        }
        assert((c + 1) * s == c * s + s) by (nonlinear_arith);
        assert(ch.len() == (if (c + 1) * s < len { (c + 1) * s } else { len }) - c * s);
        assert(ch[u] == atoms[c * s + u]);
        assert(g.atom_covers_cell(atoms[c * s + u], probe, n));
    }
    if g.covered_at(atoms, probe, n) {
        let t = choose|t: int| 0 <= t < len && #[trigger] g.atom_covers_cell(atoms[t], probe, n);
        let c = t / s;
        vstd::arithmetic::div_mod::lemma_fundamental_div_mod(t, s);
        assert(0 <= c) by (nonlinear_arith)
            requires t >= 0, s > 0, c == t / s;
        assert(c * s <= t < c * s + s) by (nonlinear_arith)
            requires t == s * c + t % s, 0 <= t % s < s;
        assert(c < chunk_count(len, s)) by {
            vstd::arithmetic::div_mod::lemma_fundamental_div_mod(len + s - 1, s);
            let q = (len + s - 1) / s;
            assert(c < q) by (nonlinear_arith)
                requires len + s - 1 == s * q + (len + s - 1) % s, 0 <= (len + s - 1) % s < s, c * s <= t, t < len,
                    s > 0;
        }
        assert((c + 1) * s == c * s + s) by (nonlinear_arith);
        let ch = chunk_of(atoms, s, c);
        assert(ch[t - c * s] == atoms[t]);
        assert(g.covered_at(ch, probe, n));
    }
}

impl Grid3D {
    /// Cells covered by `atoms`, by linear index: the share of the fill
    /// that one worker computes for its chunk of atoms.
    #[verifier::spinoff_prover]
    #[verifier::rlimit(40)]
    pub fn accessible_flags(&self, atoms: &[Atom], probe: i64) -> (r: Vec<bool>)
        requires
            self.wf(),
            atoms_ok(atoms@),
            crate::length_ok(probe),
        ensures
            r@ == self.accessible(atoms@, probe as int),
    {
        let total = self.total_voxels;
        let mut flags: Vec<bool> = Vec::new();
        let mut idx: usize = 0;
        while idx < total
            invariant
                0 <= idx <= total,
                flags.len() == idx,
                forall|t: int| 0 <= t < idx ==> flags@[t] == false,
            decreases total - idx,
        {
            flags.push(false);
            idx = idx + 1;
        }
        proof {
            assert forall|m: int| 0 <= m < total implies #[trigger] flags@[m] == self.covered_at(
                atoms@.subrange(0, 0),
                probe as int,
                m,
            ) by {}
        }
        let count = atoms.len();
        let mut t: usize = 0;
        while t < count
            invariant
                self.wf(),
                total == self.total_voxels,
                count == atoms.len(),
                atoms_ok(atoms@),
                crate::length_ok(probe),
                0 <= t <= count,
                flags.len() == total,
                forall|m: int|
                    0 <= m < total ==> #[trigger] flags@[m] == self.covered_at(
                        atoms@.subrange(0, t as int),
                        probe as int,
                        m,
                    ),
            decreases count - t,
        {
            mark_atom(self, &mut flags, &atoms[t], probe);
            proof {
                assert forall|m: int| 0 <= m < total implies #[trigger] flags@[m] == self.covered_at(
                    atoms@.subrange(0, t + 1),
                    probe as int,
                    m,
                ) by {
                    lemma_cover_prefix_step(*self, atoms@, probe as int, t as int, m);
                }
            }
            t = t + 1;
        }
        proof {
            assert(atoms@.subrange(0, count as int) =~= atoms@);
            assert(flags@ =~= self.accessible(atoms@, probe as int));
        }
        flags
    }

    /// Fill the lattice with the accessible volume of `atoms`: a cell is
    /// occupied exactly when it lies strictly inside some atom's sphere of
    /// radius `radius + probe`. The atoms are taken in chunks of
    /// `chunk_size`, one chunk per worker; each worker's cells are combined
    /// by OR, so workers only ever set cells. Returns the number of occupied
    /// cells.
    #[verifier::spinoff_prover]
    #[verifier::rlimit(40)]
    pub fn fill_accessible_chunked(&mut self, atoms: &[Atom], probe: i64, chunk_size: usize) -> (r: usize)
        requires
            old(self).wf(),
            atoms_ok(atoms@),
            crate::length_ok(probe),
            chunk_size > 0,
        ensures
            final(self).wf(),
            final(self).same_frame(old(self)),
            final(self)@ == Seq::new(
                old(self).total_voxels as nat,
                |n: int| chunked_cover(*old(self), atoms@, probe as int, chunk_size as int, n),
            ),
            final(self)@ == old(self).accessible(atoms@, probe as int),
            r == count_true(final(self)@),
    {
        let ghost g0: Grid3D = *self;
        let ghost s = chunk_size as int;
        let count = atoms.len();
        let mut flags = self.accessible_flags(&[], probe);
        proof {
            assert forall|m: int| 0 <= m < g0.total_voxels implies #[trigger] flags@[m] == (exists|c: int|
                0 <= c < 0 && #[trigger] g0.covered_at(chunk_of(atoms@, s, c), probe as int, m)) by {}
        }
        let mut start: usize = 0;
        let ghost mut c: int = 0;
        while start < count
            invariant
                self.wf(),
                *self == g0,
                count == atoms.len(),
                atoms_ok(atoms@),
                crate::length_ok(probe),
                s == chunk_size,
                s > 0,
                0 <= c,
                start == (if c * s < count { c * s } else { count as int }),
                c == 0 || (c - 1) * s < count,
                start <= count,
                flags.len() == g0.total_voxels,
                forall|m: int|
                    0 <= m < g0.total_voxels ==> #[trigger] flags@[m] == (exists|d: int|
                        0 <= d < c && #[trigger] g0.covered_at(chunk_of(atoms@, s, d), probe as int, m)),
            decreases count - start,
        {
            let end: usize = if count - start > chunk_size {
                start + chunk_size
            } else {
                count
            };
            let (_, rest) = atoms.split_at(start);
            let (chunk, _) = rest.split_at(end - start);
            proof {
                assert(start == c * s);
                assert((c + 1) * s == c * s + s) by (nonlinear_arith);
                assert(chunk@ =~= chunk_of(atoms@, s, c));
                assert(atoms_ok(chunk@)) by {
                    assert forall|t: int| 0 <= t < chunk@.len() implies (#[trigger] chunk@[t]).wf() by {
                        assert(chunk@[t] == atoms@[start + t]);
                    }
                }
            }
            let part = self.accessible_flags(chunk, probe);
            let ghost before = flags@;
            merge_flags(&mut flags, part.as_slice());
            proof {
                assert forall|m: int| 0 <= m < g0.total_voxels implies #[trigger] flags@[m] == (exists|d: int|
                    0 <= d < c + 1 && #[trigger] g0.covered_at(chunk_of(atoms@, s, d), probe as int, m)) by {
                    if flags@[m] && !before[m] {
                        assert(g0.covered_at(chunk_of(atoms@, s, c), probe as int, m));
                    }
                    if exists|d: int| 0 <= d < c + 1 && #[trigger] g0.covered_at(chunk_of(atoms@, s, d), probe as int, m) {
                        let d = choose|d: int|
                            0 <= d < c + 1 && #[trigger] g0.covered_at(chunk_of(atoms@, s, d), probe as int, m);
                        if d < c {
                            assert(before[m]);
                        }
                    }
                }
            }
            start = end;
            proof {
                assert(start == c * s + s || start == count);
                c = c + 1;
            }
        }
        proof {
            assert(c == chunk_count(count as int, s)) by {
                lemma_chunk_count(count as int, s, c);
            }
            assert(flags@ =~= Seq::new(
                g0.total_voxels as nat,
                |n: int| chunked_cover(g0, atoms@, probe as int, s, n),
            ));
            lemma_fill_chunk_independent(g0, atoms@, probe as int, s, s);
            assert(flags@ =~= g0.accessible(atoms@, probe as int));
        }
        self.store_cells(&flags)
    }

    /// Fill the lattice with the accessible volume of `atoms` (see
    /// `fill_accessible_chunked`); the whole atom list forms one chunk.
    /// Returns the number of occupied cells.
    pub fn fill_accessible_parallel(&mut self, atoms: &[Atom], probe: i64) -> (r: usize)
        requires
            old(self).wf(),
            atoms_ok(atoms@),
            crate::length_ok(probe),
        ensures
            final(self).wf(),
            final(self).same_frame(old(self)),
            final(self)@ == old(self).accessible(atoms@, probe as int),
            r == count_true(final(self)@),
    {
        let chunk_size: usize = if atoms.len() == 0 {
            1
        } else {
            atoms.len()
        };
        self.fill_accessible_chunked(atoms, probe, chunk_size)
    }
}

/// A displacement strictly inside the ball has each component within
/// `max_r` cells, when `max_r * cell` reaches the radius.
proof fn lemma_ball_bound(di: int, dj: int, dk: int, probe: int, cell: int, max_r: int)
    requires
        in_ball_strict(di, dj, dk, probe, cell),
        cell > 0,
        max_r >= 0,
        max_r * cell >= probe,
    ensures
        -max_r <= di <= max_r,
        -max_r <= dj <= max_r,
        -max_r <= dk <= max_r,
{
    assert(di * di * (cell * cell) < probe * probe) by (nonlinear_arith)
        requires (di * di + dj * dj + dk * dk) * (cell * cell) < probe * probe;
    assert(dj * dj * (cell * cell) < probe * probe) by (nonlinear_arith)
        requires (di * di + dj * dj + dk * dk) * (cell * cell) < probe * probe;
    assert(dk * dk * (cell * cell) < probe * probe) by (nonlinear_arith)
        requires (di * di + dj * dj + dk * dk) * (cell * cell) < probe * probe;
    lemma_square_bound(di, probe, cell, max_r);
    lemma_square_bound(dj, probe, cell, max_r);
    lemma_square_bound(dk, probe, cell, max_r);
}

proof fn lemma_square_bound(d: int, probe: int, cell: int, max_r: int)
    requires
        d * d * (cell * cell) < probe * probe,
        probe > 0,
        cell > 0,
        max_r >= 0,
        max_r * cell >= probe,
    ensures
        -max_r <= d <= max_r,
{
    if d > max_r {
        assert(d * cell > probe) by (nonlinear_arith)
            requires d > max_r, max_r * cell >= probe, cell > 0;
        assert(d * d * (cell * cell) > probe * probe) by (nonlinear_arith)
            requires d * cell > probe, probe > 0;
    }
    if d < -max_r {
        assert(-d * cell > probe) by (nonlinear_arith)
            requires -d > max_r, max_r * cell >= probe, cell > 0;
        assert(d * d * (cell * cell) > probe * probe) by (nonlinear_arith)
            requires -d * cell > probe, probe > 0;
    }
}

/// Whether `o` is among the first `upto` shifts of `s`.
pub open spec fn has_shift(s: Seq<i128>, upto: int, o: int) -> bool {
    exists|t: int| 0 <= t < upto && t < s.len() && #[trigger] s[t] == o
}

proof fn lemma_push_keeps(s: Seq<i128>, x: i128)
    ensures
        has_shift(s.push(x), s.len() + 1int, x as int),
        forall|o: int| has_shift(s, s.len() as int, o) ==> #[trigger] has_shift(s.push(x), s.len() + 1int, o),
{
    assert(s.push(x)[s.len() as int] == x);
    assert forall|o: int| has_shift(s, s.len() as int, o) implies #[trigger] has_shift(s.push(x), s.len() + 1int, o) by {
        let t = choose|t: int| 0 <= t < s.len() && t < s.len() && #[trigger] s[t] == o;
        assert(s.push(x)[t] == o);
    }
}

/// Linear shifts of every displacement strictly inside the ball of radius
/// `probe` (length units); empty when `probe` is not positive.
#[verifier::spinoff_prover]
#[verifier::rlimit(40)]
fn compute_offsets(probe: i64, cell: i64, len_i: usize, len_j: usize) -> (offsets: Vec<i128>)
    requires
        crate::length_ok(probe),
        crate::grid::cell_size_ok(cell),
        len_i > 0,
        len_j > 0,
        len_i as int * len_j as int <= isize::MAX,
    ensures
        forall|t: int|
            0 <= t < offsets.len() ==> is_ball_shift(
                #[trigger] offsets@[t] as int,
                probe as int,
                cell as int,
                len_i as int,
                len_j as int,
            ),
        forall|di: int, dj: int, dk: int|
            #![trigger in_ball_strict(di, dj, dk, probe as int, cell as int)]
            in_ball_strict(di, dj, dk, probe as int, cell as int) ==> has_shift(
                offsets@,
                offsets.len() as int,
                di + dj * len_i + dk * len_i * len_j,
            ),
        forall|t: int|
            0 <= t < offsets.len() ==> -crate::SHIFT_LIMIT <= #[trigger] offsets@[t] <= crate::SHIFT_LIMIT,
{
    let mut offsets: Vec<i128> = Vec::new();
    if probe <= 0 {
        return offsets;
    }
    let max_r = ceil_div_nonneg(probe, cell) as i128;
    let g = cell as i128;
    proof {
        assert((probe as int) * (probe as int) <= 1_000_000_000_000_000_000_000_000) by (nonlinear_arith)
            requires 0 < probe <= 1_000_000_000_000;
    }
    let cutoff = (probe as i128) * (probe as i128);
    proof {
        crate::grid::lemma_dims_products(len_i as int, len_j as int, 1);
    }
    let sj = len_i as i128;
    let sk = (len_i as i128) * (len_j as i128);
    let ghost li = len_i as int;
    let ghost lj = len_j as int;
    let ghost pr = probe as int;
    let ghost gi = cell as int;
    proof {
        assert(max_r * g <= probe + g) by (nonlinear_arith)
            requires max_r == 0 || (max_r - 1) * g < probe, max_r >= 0, g > 0, probe > 0;
    }
    let mut di: i128 = -max_r;
    proof {
        assert forall|a: int, b: int, c: int|
            #![trigger in_ball_strict(a, b, c, pr, gi)]
            in_ball_strict(a, b, c, pr, gi) implies a >= di by {
            lemma_ball_bound(a, b, c, pr, gi, max_r as int);
        }
    }
    while di <= max_r
        invariant
            -max_r <= di <= max_r + 1,
            0 <= max_r <= probe <= crate::LENGTH_LIMIT,
            max_r * g >= probe,
            max_r * g <= probe + g,
            g == cell,
            cell > 0,
            cell <= crate::LENGTH_LIMIT,
            probe > 0,
            cutoff == probe * probe,
            sj == len_i,
            sk == len_i * len_j,
            len_i as int * len_j as int <= isize::MAX,
            sj <= isize::MAX,
            gi == cell,
            pr == probe,
            li == len_i,
            lj == len_j,
            forall|t: int|
                0 <= t < offsets.len() ==> is_ball_shift(#[trigger] offsets@[t] as int, pr, gi, li, lj),
            forall|t: int|
                0 <= t < offsets.len() ==> -crate::SHIFT_LIMIT <= #[trigger] offsets@[t] <= crate::SHIFT_LIMIT,
            forall|a: int, b: int, c: int|
                #![trigger in_ball_strict(a, b, c, pr, gi)]
                in_ball_strict(a, b, c, pr, gi) && a < di ==> has_shift(offsets@, offsets.len() as int, a + b * li + c * li * lj),
        decreases max_r + 1 - di,
    {
        let mut dj: i128 = -max_r;
        proof {
            assert forall|a: int, b: int, c: int|
                #![trigger in_ball_strict(a, b, c, pr, gi)]
                in_ball_strict(a, b, c, pr, gi) implies b >= dj by {
                lemma_ball_bound(a, b, c, pr, gi, max_r as int);
            }
        }
        while dj <= max_r
            invariant
                -max_r <= di <= max_r,
                -max_r <= dj <= max_r + 1,
                0 <= max_r <= probe <= crate::LENGTH_LIMIT,
                max_r * g >= probe,
                max_r * g <= probe + g,
                g == cell,
                cell > 0,
                cell <= crate::LENGTH_LIMIT,
                probe > 0,
                cutoff == probe * probe,
                sj == len_i,
                sk == len_i * len_j,
                len_i as int * len_j as int <= isize::MAX,
                sj <= isize::MAX,
                gi == cell,
                pr == probe,
                li == len_i,
                lj == len_j,
            sj <= isize::MAX,
            gi == cell,
            pr == probe,
            li == len_i,
            lj == len_j,
                forall|t: int|
                    0 <= t < offsets.len() ==> is_ball_shift(#[trigger] offsets@[t] as int, pr, gi, li, lj),
                forall|t: int|
                    0 <= t < offsets.len() ==> -crate::SHIFT_LIMIT <= #[trigger] offsets@[t] <= crate::SHIFT_LIMIT,
                forall|a: int, b: int, c: int|
                    #![trigger in_ball_strict(a, b, c, pr, gi)]
                    in_ball_strict(a, b, c, pr, gi) && (a < di || (a == di && b < dj)) ==> has_shift(offsets@, offsets.len() as int, a + b * li + c * li * lj),
            decreases max_r + 1 - dj,
        {
            let mut dk: i128 = -max_r;
            proof {
                assert forall|a: int, b: int, c: int|
                    #![trigger in_ball_strict(a, b, c, pr, gi)]
                    in_ball_strict(a, b, c, pr, gi) implies c >= dk by {
                    lemma_ball_bound(a, b, c, pr, gi, max_r as int);
                }
            }
            while dk <= max_r
                invariant
                    -max_r <= di <= max_r,
                    -max_r <= dj <= max_r,
                    -max_r <= dk <= max_r + 1,
                    0 <= max_r <= probe <= crate::LENGTH_LIMIT,
                    max_r * g >= probe,
                    max_r * g <= probe + g,
                    g == cell,
                    cell > 0,
                    cell <= crate::LENGTH_LIMIT,
                    probe > 0,
                    cutoff == probe * probe,
                    sj == len_i,
                    sk == len_i * len_j,
                    len_i as int * len_j as int <= isize::MAX,
                    sj <= isize::MAX,
                    gi == cell,
                    pr == probe,
                    li == len_i,
                    lj == len_j,
                sj <= isize::MAX,
                gi == cell,
                pr == probe,
                li == len_i,
                lj == len_j,
            sj <= isize::MAX,
            gi == cell,
            pr == probe,
            li == len_i,
            lj == len_j,
                    forall|t: int|
                        0 <= t < offsets.len() ==> is_ball_shift(#[trigger] offsets@[t] as int, pr, gi, li, lj),
                    forall|t: int|
                        0 <= t < offsets.len() ==> -crate::SHIFT_LIMIT <= #[trigger] offsets@[t] <= crate::SHIFT_LIMIT,
                    forall|a: int, b: int, c: int|
                        #![trigger in_ball_strict(a, b, c, pr, gi)]
                        in_ball_strict(a, b, c, pr, gi) && (a < di || (a == di && b < dj) || (a == di && b == dj
                            && c < dk)) ==> has_shift(offsets@, offsets.len() as int, a + b * li + c * li * lj),
                decreases max_r + 1 - dk,
            {
                proof {
                    lemma_offset_terms(di as int, dj as int, dk as int, max_r as int, g as int, probe as int, sj as int, sk as int);
                }
                let a = di * g;
                let b = dj * g;
                let c = dk * g;
                proof {
                    assert(a * a <= 4_000_000_000_000_000_000_000_000);
                    assert(b * b <= 4_000_000_000_000_000_000_000_000);
                    assert(c * c <= 4_000_000_000_000_000_000_000_000);
                    assert(a * a >= 0) by (nonlinear_arith);
                    assert(b * b >= 0) by (nonlinear_arith);
                    assert(c * c >= 0) by (nonlinear_arith);
                }
                let dist2 = a * a + b * b + c * c;
                let ghost before = offsets@;
                if dist2 < cutoff {
                    let shift = di + dj * sj + dk * sk;
                    proof {
                        assert(in_ball_strict(di as int, dj as int, dk as int, pr, gi));
                        assert(shift == di + dj * li + dk * li * lj) by (nonlinear_arith)
                            requires shift == di + dj * sj + dk * sk, sj == li, sk == li * lj;
                    }
                    offsets.push(shift);
                    proof {
                        lemma_push_keeps(before, shift);
                        assert(offsets@[offsets.len() - 1] == shift);
                    }
                } else {
                    proof {
                        assert(!in_ball_strict(di as int, dj as int, dk as int, pr, gi));
                    }
                }
                proof {
                    assert forall|a: int, b: int, c: int|
                        #![trigger in_ball_strict(a, b, c, pr, gi)]
                        in_ball_strict(a, b, c, pr, gi) && (a < di || (a == di && b < dj) || (a == di && b == dj
                            && c < dk + 1)) implies has_shift(offsets@, offsets.len() as int, a + b * li + c * li * lj) by {
                        if a == di && b == dj && c == dk {
                            assert(dist2 < cutoff);
                        } else {
                            assert(has_shift(before, before.len() as int, a + b * li + c * li * lj));
                        }
                    }
                }
                dk = dk + 1;
            }
            proof {
                assert forall|a: int, b: int, c: int|
                    #![trigger in_ball_strict(a, b, c, pr, gi)]
                    in_ball_strict(a, b, c, pr, gi) && (a < di || (a == di && b < dj + 1)) implies has_shift(offsets@, offsets.len() as int, a + b * li + c * li * lj) by {
                    lemma_ball_bound(a, b, c, pr, gi, max_r as int);
                }
            }
            dj = dj + 1;
        }
        proof {
            assert forall|a: int, b: int, c: int|
                #![trigger in_ball_strict(a, b, c, pr, gi)]
                in_ball_strict(a, b, c, pr, gi) && a < di + 1 implies has_shift(offsets@, offsets.len() as int, a + b * li + c * li * lj) by {
                lemma_ball_bound(a, b, c, pr, gi, max_r as int);
            }
        }
        di = di + 1;
    }
    proof {
        assert forall|a: int, b: int, c: int|
            #![trigger in_ball_strict(a, b, c, pr, gi)]
            in_ball_strict(a, b, c, pr, gi) implies has_shift(offsets@, offsets.len() as int, a + b * li + c * li * lj) by {
            lemma_ball_bound(a, b, c, pr, gi, max_r as int);
        }
    }
    offsets
}

/// Bounds on the terms that `compute_offsets` evaluates for one displacement.
proof fn lemma_offset_terms(di: int, dj: int, dk: int, max_r: int, g: int, probe: int, sj: int, sk: int)
    requires
        -max_r <= di <= max_r,
        -max_r <= dj <= max_r,
        -max_r <= dk <= max_r,
        0 <= max_r <= crate::LENGTH_LIMIT,
        0 < g <= crate::LENGTH_LIMIT,
        0 < probe <= crate::LENGTH_LIMIT,
        max_r * g <= probe + g,
        0 <= sj <= isize::MAX,
        0 <= sk <= isize::MAX,
    ensures
        -2 * crate::LENGTH_LIMIT <= di * g <= 2 * crate::LENGTH_LIMIT,
        -2 * crate::LENGTH_LIMIT <= dj * g <= 2 * crate::LENGTH_LIMIT,
        -2 * crate::LENGTH_LIMIT <= dk * g <= 2 * crate::LENGTH_LIMIT,
        (di * g) * (di * g) <= 4 * crate::LENGTH_LIMIT * crate::LENGTH_LIMIT,
        (dj * g) * (dj * g) <= 4 * crate::LENGTH_LIMIT * crate::LENGTH_LIMIT,
        (dk * g) * (dk * g) <= 4 * crate::LENGTH_LIMIT * crate::LENGTH_LIMIT,
        (di * g) * (di * g) + (dj * g) * (dj * g) + (dk * g) * (dk * g) == (di * di + dj * dj + dk * dk) * (g * g),
        -crate::SHIFT_LIMIT <= dj * sj <= crate::SHIFT_LIMIT,
        -crate::SHIFT_LIMIT <= dk * sk <= crate::SHIFT_LIMIT,
        -crate::SHIFT_LIMIT <= di + dj * sj + dk * sk <= crate::SHIFT_LIMIT,
{
    let l = crate::LENGTH_LIMIT as int;
    assert(-2 * l <= di * g <= 2 * l) by (nonlinear_arith)
        requires -max_r <= di <= max_r, max_r * g <= probe + g, probe <= l, g <= l, g > 0, max_r >= 0;
    assert(-2 * l <= dj * g <= 2 * l) by (nonlinear_arith)
        requires -max_r <= dj <= max_r, max_r * g <= probe + g, probe <= l, g <= l, g > 0, max_r >= 0;
    assert(-2 * l <= dk * g <= 2 * l) by (nonlinear_arith)
        requires -max_r <= dk <= max_r, max_r * g <= probe + g, probe <= l, g <= l, g > 0, max_r >= 0;
    assert((2 * l) * (2 * l) == 4 * l * l) by (nonlinear_arith);
    lemma_sq_bound(di * g, 2 * l);
    lemma_sq_bound(dj * g, 2 * l);
    lemma_sq_bound(dk * g, 2 * l);
    lemma_sq_scale(di, g);
    lemma_sq_scale(dj, g);
    lemma_sq_scale(dk, g);
    let gg = g * g;
    assert((di * di + dj * dj + dk * dk) * gg == (di * di) * gg + (dj * dj) * gg + (dk * dk) * gg) by (nonlinear_arith);
    assert(-l * isize::MAX <= dj * sj <= l * isize::MAX) by (nonlinear_arith)
        requires -max_r <= dj <= max_r, max_r <= l, 0 <= sj <= isize::MAX;
    assert(-l * isize::MAX <= dk * sk <= l * isize::MAX) by (nonlinear_arith)
        requires -max_r <= dk <= max_r, max_r <= l, 0 <= sk <= isize::MAX;
}

proof fn lemma_sq_scale(x: int, g: int)
    ensures
        (x * g) * (x * g) == (x * x) * (g * g),
{
    assert((x * g) * (x * g) == (x * x) * (g * g)) by (nonlinear_arith);
}

proof fn lemma_sq_bound(x: int, m: int)
    requires
        -m <= x <= m,
    ensures
        x * x <= m * m,
{
    assert(x * x <= m * m) by (nonlinear_arith)
        requires -m <= x <= m;
}

/// Whether some boundary cell below `upto` reaches `n` through one of the
/// shifts in `offs`.
pub open spec fn cleared_before(g: Grid3D, offs: Seq<i128>, upto: int, n: int) -> bool {
    exists|c: int|
        #![trigger g.is_boundary(c), has_shift(offs, offs.len() as int, n - c)]
        0 <= c < upto && g.is_boundary(c) && has_shift(offs, offs.len() as int, n - c)
}

impl Grid3D {
    /// Write `cells` into the lattice and count the occupied ones.
    pub fn store_cells(&mut self, cells: &Vec<bool>) -> (r: usize)
        requires
            old(self).wf(),
            cells.len() == old(self).total_voxels,
        ensures
            final(self).wf(),
            final(self).same_frame(old(self)),
            final(self)@ == cells@,
            r == count_true(cells@),
    {
        let n = self.total_voxels;
        let mut filled: usize = 0;
        let mut idx: usize = 0;
        while idx < n
            invariant
                self.wf(),
                self.same_frame(old(self)),
                n == self.total_voxels,
                cells.len() == n,
                0 <= idx <= n,
                forall|t: int| 0 <= t < idx ==> self@[t] == cells@[t],
                filled == count_true(cells@.subrange(0, idx as int)),
                filled <= idx,
            decreases n - idx,
        {
            let v = cells[idx];
            self.set_voxel_index(idx, v);
            proof {
                assert(cells@.subrange(0, idx + 1).drop_last() =~= cells@.subrange(0, idx as int));
            }
            if v {
                filled = filled + 1;
            }
            idx = idx + 1;
        }
        assert(self@ =~= cells@);
        assert(cells@.subrange(0, n as int) =~= cells@);
        filled
    }

    /// Contract the occupied region into the excluded volume: every cell that
    /// a boundary cell reaches through the ball of radius `probe` (length
    /// units, strict test) is cleared. Boundary cells are judged on the
    /// occupancy before the call. Returns the number of occupied cells after.
    #[verifier::spinoff_prover]
    #[verifier::rlimit(40)]
    pub fn contract_exclusion_parallel(&mut self, probe: i64) -> (r: usize)
        requires
            old(self).wf(),
            crate::length_ok(probe),
        ensures
            final(self).wf(),
            final(self).same_frame(old(self)),
            final(self)@ == Seq::new(
                old(self).total_voxels as nat,
                |n: int| old(self).contracted_at(probe as int, n),
            ),
            r == count_true(final(self)@),
    {
        let total = self.total_voxels;
        let ghost g0: Grid3D = *self;
        let mut out: Vec<bool> = Vec::new();
        let mut idx: usize = 0;
        while idx < total
            invariant
                self.wf(),
                total == self.total_voxels,
                0 <= idx <= total,
                out.len() == idx,
                forall|t: int| 0 <= t < idx ==> out@[t] == self@[t],
            decreases total - idx,
        {
            out.push(self.get_voxel_index(idx));
            idx = idx + 1;
        }
        proof {
            crate::grid::lemma_dims_products(self.len_i as int, self.len_j as int, self.len_k as int);
        }
        let offsets = compute_offsets(probe, self.grid_size, self.len_i, self.len_j);
        let ghost offs = offsets@;
        let ghost m = offsets.len() as int;
        let mut idx: usize = 0;
        while idx < total
            invariant
                self.wf(),
                *self == g0,
                total == self.total_voxels,
                0 <= idx <= total,
                out.len() == total,
                offs == offsets@,
                m == offsets.len(),
                forall|n: int|
                    0 <= n < total ==> #[trigger] out@[n] == (self@[n] && !cleared_before(g0, offs, idx as int, n)),
                forall|u: int|
                    0 <= u < offsets.len() ==> -crate::SHIFT_LIMIT <= #[trigger] offsets@[u] <= crate::SHIFT_LIMIT,
            decreases total - idx,
        {
            if !self.get_voxel_index(idx) && has_filled_neighbor(self, idx) {
                let mut t: usize = 0;
                while t < offsets.len()
                    invariant
                        self.wf(),
                        *self == g0,
                        g0.is_boundary(idx as int),
                        total == self.total_voxels,
                        0 <= idx < total,
                        0 <= t <= offsets.len(),
                        out.len() == total,
                        offs == offsets@,
                        m == offsets.len(),
                        forall|n: int|
                            0 <= n < total ==> #[trigger] out@[n] == (self@[n] && !cleared_before(g0, offs, idx as int, n)
                                && !has_shift(offs, t as int, n - idx)),
                        forall|u: int|
                            0 <= u < offsets.len() ==> -crate::SHIFT_LIMIT <= #[trigger] offsets@[u] <= crate::SHIFT_LIMIT,
                    decreases offsets.len() - t,
                {
                    let nb = idx as i128 + offsets[t];
                    let ghost before = out@;
                    if 0 <= nb && nb < total as i128 {
                        out.set(nb as usize, false);
                    }
                    proof {
                        assert forall|n: int| 0 <= n < total implies #[trigger] out@[n] == (self@[n] && !cleared_before(
                            g0,
                            offs,
                            idx as int,
                            n,
                        ) && !has_shift(offs, t + 1, n - idx)) by {
                            if n == nb {
                                assert(offs[t as int] == n - idx);
                            } else {
                                assert(before[n] == out@[n]);
                                if has_shift(offs, t + 1, n - idx) {
                                    let u = choose|u: int| 0 <= u < t + 1 && u < offs.len() && #[trigger] offs[u] == n - idx;
                                    assert(u != t);
                                    assert(has_shift(offs, t as int, n - idx));
                                }
                            }
                        }
                    }
                    t = t + 1;
                }
                proof {
                    assert forall|n: int| 0 <= n < total implies #[trigger] out@[n] == (self@[n] && !cleared_before(
                        g0,
                        offs,
                        idx + 1,
                        n,
                    )) by {
                        if has_shift(offs, m, n - idx) {
                            assert(cleared_before(g0, offs, idx + 1, n));
                        }
                        if cleared_before(g0, offs, idx + 1, n) && !cleared_before(g0, offs, idx as int, n) {
                            let c = choose|c: int|
                                #![trigger g0.is_boundary(c), has_shift(offs, offs.len() as int, n - c)]
                                0 <= c < idx + 1 && g0.is_boundary(c) && has_shift(offs, offs.len() as int, n - c);
                            assert(c == idx);
                        }
                    }
                }
            } else {
                proof {
                    assert forall|n: int| 0 <= n < total implies #[trigger] out@[n] == (self@[n] && !cleared_before(
                        g0,
                        offs,
                        idx + 1,
                        n,
                    )) by {
                        if cleared_before(g0, offs, idx + 1, n) && !cleared_before(g0, offs, idx as int, n) {
                            let c = choose|c: int|
                                #![trigger g0.is_boundary(c), has_shift(offs, offs.len() as int, n - c)]
                                0 <= c < idx + 1 && g0.is_boundary(c) && has_shift(offs, offs.len() as int, n - c);
                            assert(c == idx);
                        }
                    }
                }
            }
            idx = idx + 1;
        }
        proof {
            assert forall|n: int| 0 <= n < total implies #[trigger] out@[n] == g0.contracted_at(probe as int, n) by {
                lemma_cleared_is_ball(g0, offs, probe as int, n);
            }
            assert(out@ =~= Seq::new(total as nat, |n: int| g0.contracted_at(probe as int, n)));
        }
        self.store_cells(&out)
    }
}

/// Contracting by a probe that spans no cell (`probe / cell size <= 0`, that
/// is `probe <= 0`) leaves the lattice unchanged.
pub proof fn lemma_contract_noop(g: Grid3D, probe: int)
    requires
        g.wf(),
        probe <= 0,
    ensures
        Seq::new(g.total_voxels as nat, |n: int| g.contracted_at(probe, n)) == g@,
{
    assert(Seq::new(g.total_voxels as nat, |n: int| g.contracted_at(probe, n)) =~= g@);
}

/// With the offset list of the strict ball, being cleared by some boundary
/// cell is the same as the ball test of `contracted_at`.
proof fn lemma_cleared_is_ball(g: Grid3D, offs: Seq<i128>, probe: int, n: int)
    requires
        g.wf(),
        forall|t: int|
            0 <= t < offs.len() ==> is_ball_shift(
                #[trigger] offs[t] as int,
                probe,
                g.grid_size as int,
                g.len_i as int,
                g.len_j as int,
            ),
        forall|di: int, dj: int, dk: int|
            #![trigger in_ball_strict(di, dj, dk, probe, g.grid_size as int)]
            in_ball_strict(di, dj, dk, probe, g.grid_size as int) ==> has_shift(
                offs,
                offs.len() as int,
                di + dj * g.len_i + dk * g.len_i * g.len_j,
            ),
    ensures
        (g@[n] && !cleared_before(g, offs, g.total_voxels as int, n)) == g.contracted_at(probe, n),
{
    let cell = g.grid_size as int;
    let li = g.len_i as int;
    let lj = g.len_j as int;
    if cleared_before(g, offs, g.total_voxels as int, n) {
        let c = choose|c: int|
            #![trigger g.is_boundary(c), has_shift(offs, offs.len() as int, n - c)]
            0 <= c < g.total_voxels && g.is_boundary(c) && has_shift(offs, offs.len() as int, n - c);
        let t = choose|t: int| 0 <= t < offs.len() && t < offs.len() && #[trigger] offs[t] == n - c;
        assert(is_ball_shift(offs[t] as int, probe, cell, li, lj));
        assert(is_ball_shift(n - c, probe, cell, li, lj));
    }
    if exists|c: int|
        #![trigger g.is_boundary(c), is_ball_shift(n - c, probe, cell, li, lj)]
        0 <= c < g.total_voxels && g.is_boundary(c) && is_ball_shift(n - c, probe, cell, li, lj) {
        let c = choose|c: int|
            #![trigger g.is_boundary(c), is_ball_shift(n - c, probe, cell, li, lj)]
            0 <= c < g.total_voxels && g.is_boundary(c) && is_ball_shift(n - c, probe, cell, li, lj);
        let (di, dj, dk) = choose|di: int, dj: int, dk: int|
            #![trigger in_ball_strict(di, dj, dk, probe, cell), di + dj * li + dk * li * lj]
            in_ball_strict(di, dj, dk, probe, cell) && n - c == di + dj * li + dk * li * lj;
        assert(has_shift(offs, offs.len() as int, di + dj * g.len_i + dk * g.len_i * g.len_j));
        assert(cleared_before(g, offs, g.total_voxels as int, n));
    }
}

/// Whether any face neighbour of cell `idx` is occupied (outside = empty).
fn has_filled_neighbor(grid: &Grid3D, idx: usize) -> (r: bool)
    requires
        grid.wf(),
        idx < grid.total_voxels,
    ensures
        r == grid.has_filled_neighbor_at(idx as int),
{
    let (i, j, k) = grid.index_to_ijk(idx);
    let li = grid.len_i;
    let lj = grid.len_j;
    let lk = grid.len_k;
    proof {
        grid.lemma_index_bijection();
        crate::grid::lemma_dims_products(li as int, lj as int, lk as int);
        let ii = i as int;
        let jj = j as int;
        let kk = k as int;
        assert(grid.index_of(ii - 1, jj, kk) == idx - 1);
        assert(grid.index_of(ii + 1, jj, kk) == idx + 1);
        assert(grid.index_of(ii, jj - 1, kk) == idx - li) by (nonlinear_arith)
            requires grid.index_of(ii, jj, kk) == idx, li == grid.len_i;
        assert(grid.index_of(ii, jj + 1, kk) == idx + li) by (nonlinear_arith)
            requires grid.index_of(ii, jj, kk) == idx, li == grid.len_i;
        assert(grid.index_of(ii, jj, kk - 1) == idx - li * lj) by (nonlinear_arith)
            requires grid.index_of(ii, jj, kk) == idx, li == grid.len_i, lj == grid.len_j;
        assert(grid.index_of(ii, jj, kk + 1) == idx + li * lj) by (nonlinear_arith)
            requires grid.index_of(ii, jj, kk) == idx, li == grid.len_i, lj == grid.len_j;
        if kk + 1 < lk {
            assert(grid.in_bounds(ii, jj, kk + 1));
        }
        if jj + 1 < lj {
            assert(grid.in_bounds(ii, jj + 1, kk));
        }
        if ii + 1 < li {
            assert(grid.in_bounds(ii + 1, jj, kk));
        }
        assert(j * li <= idx) by (nonlinear_arith)
            requires idx == i + j * li + k * li * lj, i >= 0, k >= 0, li >= 0, lj >= 0;
        assert(k * (li * lj) <= idx) by (nonlinear_arith)
            requires idx == i + j * li + k * li * lj, i >= 0, j >= 0, li >= 0, lj >= 0;
        assert(j > 0 ==> li <= j * li) by (nonlinear_arith)
            requires li >= 0;
        assert(k > 0 ==> li * lj <= k * (li * lj)) by (nonlinear_arith)
            requires li * lj >= 0;
    }
    if i > 0 && grid.get_voxel_index(idx - 1) {
        return true;
    }
    if i + 1 < li && grid.get_voxel_index(idx + 1) {
        return true;
    }
    if j > 0 && grid.get_voxel_index(idx - li) {
        return true;
    }
    if j + 1 < lj && grid.get_voxel_index(idx + li) {
        return true;
    }
    let stride_k = li * lj;
    if k > 0 && grid.get_voxel_index(idx - stride_k) {
        return true;
    }
    if k + 1 < lk && grid.get_voxel_index(idx + stride_k) {
        return true;
    }
    false
}

} // verus!
