//! Offset-list single-sphere fill and clear. The radius is in thousandths
//! of a cell; spheres that cross a face wrap through the linear index.
use crate::geometry::trunc_div;
use crate::grid::Grid3D;
use crate::SCALE;
use vstd::prelude::*;

verus! {

/// Half-width, in cells, of the displacement range searched for a radius.
pub open spec fn search_range(radius: int) -> int {
    1 + trunc_div(radius, SCALE as int)
}

/// Whether displacement (di, dj, dk) is searched and lies in the closed
/// sphere of `radius` thousandths of a cell.
pub open spec fn in_sphere(di: int, dj: int, dk: int, radius: int) -> bool {
    let m = search_range(radius);
    &&& -m <= di <= m
    &&& -m <= dj <= m
    &&& -m <= dk <= m
    &&& (di * di + dj * dj + dk * dk) * (SCALE * SCALE) <= radius * radius
}

/// Whether `o` is among the first `upto` entries of `s`.
pub open spec fn has_offset(s: Seq<isize>, upto: int, o: int) -> bool {
    exists|t: int| 0 <= t < upto && t < s.len() && #[trigger] s[t] == o
}

/// Cells that applying `offsets` at `center` writes: in `[0, len)`.
pub open spec fn offsets_reach(offsets: Seq<isize>, center: int, len: int, n: int) -> bool {
    0 <= n < len && has_offset(offsets, offsets.len() as int, n - center)
}

impl Grid3D {
    /// The sphere's offsets fit a signed machine word.
    pub open spec fn sphere_fits(&self, radius: int) -> bool {
        let m = search_range(radius);
        &&& -crate::LENGTH_LIMIT <= radius <= crate::LENGTH_LIMIT
        &&& m * (1 + self.len_i + self.len_i * self.len_j) <= isize::MAX
    }

    /// Whether the sphere of `radius` around cell `center` reaches cell `n`.
    pub open spec fn sphere_reaches(&self, center: int, radius: int, n: int) -> bool {
        &&& 0 <= n < self.total_voxels
        &&& exists|di: int, dj: int, dk: int|
            #![trigger in_sphere(di, dj, dk, radius), self.shift_of(di, dj, dk)]
            in_sphere(di, dj, dk, radius) && n == center + self.shift_of(di, dj, dk)
    }
}

proof fn lemma_push_offset(s: Seq<isize>, x: isize)
    ensures
        has_offset(s.push(x), s.len() + 1int, x as int),
        forall|o: int| has_offset(s, s.len() as int, o) ==> #[trigger] has_offset(s.push(x), s.len() + 1int, o),
{
    assert(s.push(x)[s.len() as int] == x);
    assert forall|o: int| has_offset(s, s.len() as int, o) implies #[trigger] has_offset(s.push(x), s.len() + 1int, o) by {
        let t = choose|t: int| 0 <= t < s.len() && t < s.len() && #[trigger] s[t] == o;
        assert(s.push(x)[t] == o);
    }
}

/// The terms of a searched displacement's shift fit a signed word.
proof fn lemma_shift_fits(g: Grid3D, radius: int, di: int, dj: int, dk: int)
    requires
        g.wf(),
        g.sphere_fits(radius),
        -search_range(radius) <= di <= search_range(radius),
        -search_range(radius) <= dj <= search_range(radius),
        -search_range(radius) <= dk <= search_range(radius),
    ensures
        isize::MIN <= dj * g.len_i <= isize::MAX,
        isize::MIN <= dk * g.len_i * g.len_j <= isize::MAX,
        isize::MIN <= dj * g.len_i + dk * g.len_i * g.len_j <= isize::MAX,
        isize::MIN <= g.shift_of(di, dj, dk) <= isize::MAX,
{
    let m = search_range(radius);
    let li = g.len_i as int;
    let lj = g.len_j as int;
    assert(m * (1 + li + li * lj) <= isize::MAX);
    lemma_term_bounds(m, li, lj, di, dj, dk);
}

proof fn lemma_term_bounds(m: int, li: int, lj: int, di: int, dj: int, dk: int)
    requires
        li >= 0,
        lj >= 0,
        -m <= di <= m,
        -m <= dj <= m,
        -m <= dk <= m,
        m * (1 + li + li * lj) <= isize::MAX,
    ensures
        -isize::MAX <= dj * li <= isize::MAX,
        -isize::MAX <= dk * li * lj <= isize::MAX,
        -isize::MAX <= dj * li + dk * li * lj <= isize::MAX,
        -isize::MAX <= di + dj * li + dk * li * lj <= isize::MAX,
{
    let lij = li * lj;
    assert(lij >= 0) by (nonlinear_arith)
        requires li >= 0, lj >= 0, lij == li * lj;
    assert(-(m * li) <= dj * li <= m * li) by (nonlinear_arith)
        requires -m <= dj <= m, li >= 0;
    assert(-(m * lij) <= dk * lij <= m * lij) by (nonlinear_arith)
        requires -m <= dk <= m, lij >= 0;
    assert(dk * li * lj == dk * lij) by (nonlinear_arith)
        requires lij == li * lj;
    assert(m * (1 + li + lij) == m + m * li + m * lij) by (nonlinear_arith);
    assert(m * li >= 0 && m * lij >= 0) by (nonlinear_arith)
        requires m >= 0, li >= 0, lij >= 0;
}

/// Whether `o` is the shift of a displacement inside the closed sphere.
pub open spec fn is_sphere_shift(g: Grid3D, o: int, radius: int) -> bool {
    exists|di: int, dj: int, dk: int|
        #![trigger in_sphere(di, dj, dk, radius), g.shift_of(di, dj, dk)]
        in_sphere(di, dj, dk, radius) && o == g.shift_of(di, dj, dk)
}

/// The `t`-th displacement of the search box, in loop order: `di` slowest,
/// then `dj`, then `dk`, each from `-m` to `m` with `m = search_range(radius)`.
pub open spec fn triple_at(radius: int, t: int) -> (int, int, int) {
    let m = search_range(radius);
    let w = 2 * m + 1;
    (-m + t / (w * w), -m + (t % (w * w)) / w, -m + t % w)
}

impl Grid3D {
    /// Shifts of the first `t` displacements of the search box that lie in
    /// the sphere, in loop order.
    pub open spec fn sphere_prefix(&self, radius: int, t: nat) -> Seq<isize>
        decreases t,
    {
        if t == 0 {
            Seq::empty()
        } else {
            let prev = self.sphere_prefix(radius, (t - 1) as nat);
            let d = triple_at(radius, t - 1);
            if in_sphere(d.0, d.1, d.2, radius) {
                prev.push(self.shift_of(d.0, d.1, d.2) as isize)
            } else {
                prev
            }
        }
    }

    /// The offset list of a sphere: one shift per displacement of the
    /// search box that lies in the sphere, in loop order.
    pub open spec fn sphere_offsets(&self, radius: int) -> Seq<isize> {
        let m = search_range(radius);
        let w = 2 * m + 1;
        if m < 0 {
            Seq::empty()
        } else {
            self.sphere_prefix(radius, (w * w * w) as nat)
        }
    }
}

/// Position `t` of the search box, from its coordinates `a`, `b`, `c`
/// (offset by `m`), gives back those coordinates.
proof fn lemma_triple_at(radius: int, a: int, b: int, c: int)
    requires
        search_range(radius) >= 0,
        0 <= a < 2 * search_range(radius) + 1,
        0 <= b < 2 * search_range(radius) + 1,
        0 <= c < 2 * search_range(radius) + 1,
    ensures
        ({
            let m = search_range(radius);
            let w = 2 * m + 1;
            triple_at(radius, (a * w + b) * w + c) == (-m + a, -m + b, -m + c)
        }),
{
    let m = search_range(radius);
    let w = 2 * m + 1;
    crate::grid::lemma_index_of_ijk(w, w, w, c, b, a);
    assert((a * w + b) * w + c == c + b * w + a * w * w) by (nonlinear_arith);
}

impl Grid3D {
    /// Linear shifts of every displacement within `search_range(radius)`
    /// cells per axis whose length is at most `radius` thousandths of a cell
    /// (closed test): one entry per displacement, `di` slowest, then `dj`,
    /// then `dk` (see `sphere_offsets`).
    #[verifier::spinoff_prover]
    #[verifier::rlimit(40)]
    pub fn compute_offsets(&self, radius: i64) -> (offsets: Vec<isize>)
        requires
            self.wf(),
            self.sphere_fits(radius as int),
        ensures
            offsets@ == self.sphere_offsets(radius as int),
            forall|t: int|
                0 <= t < offsets.len() ==> is_sphere_shift(*self, #[trigger] offsets@[t] as int, radius as int),
            forall|di: int, dj: int, dk: int|
                #![trigger in_sphere(di, dj, dk, radius as int)]
                in_sphere(di, dj, dk, radius as int) ==> has_offset(
                    offsets@,
                    offsets.len() as int,
                    self.shift_of(di, dj, dk),
                ),
    {
        let mut offsets: Vec<isize> = Vec::new();
        let ghost rr = radius as int;
        assert(-crate::LENGTH_LIMIT <= radius <= crate::LENGTH_LIMIT);
        let m = 1 + crate::geometry::trunc_div_exec(radius, SCALE);
        proof {
            assert(m <= 1_000_000_001);
            assert(0 <= (radius as int) * (radius as int) <= 1_000_000_000_000_000_000_000_000) by (nonlinear_arith)
                requires -1_000_000_000_000 <= radius <= 1_000_000_000_000;
        }
        let r2 = (radius as i128) * (radius as i128);
        let scale2 = (SCALE as i128) * (SCALE as i128);
        if m < 0 {
            proof {
                assert forall|di: int, dj: int, dk: int| #![trigger in_sphere(di, dj, dk, rr)] !in_sphere(di, dj, dk, rr) by {}
            }
            return offsets;
        }
        let mi = m as isize;
        let ghost w = 2 * m + 1;
        let ghost mut cur: int = 0;
        let mut di: isize = -mi;
        proof {
            assert((di + m) * w * w == 0) by (nonlinear_arith)
                requires di + m == 0;
        }
        while di <= mi
            invariant
                self.wf(),
                self.sphere_fits(rr),
                rr == radius,
                m == search_range(rr),
                mi == m,
                0 <= m <= 1_000_000_001,
                -mi <= di <= mi + 1,
            cur == (di + m) * w * w,
            w == 2 * m + 1,
            offsets@ == self.sphere_prefix(rr, cur as nat),
                r2 == rr * rr,
                scale2 == SCALE * SCALE,
                forall|t: int|
                    0 <= t < offsets.len() ==> is_sphere_shift(*self, #[trigger] offsets@[t] as int, rr),
                forall|a: int, b: int, c: int|
                    #![trigger in_sphere(a, b, c, rr)]
                    in_sphere(a, b, c, rr) && a < di ==> has_offset(offsets@, offsets.len() as int, self.shift_of(a, b, c)),
            decreases mi + 1 - di,
        {
            let mut dj: isize = -mi;
            while dj <= mi
                invariant
                    self.wf(),
                    self.sphere_fits(rr),
                    rr == radius,
                    m == search_range(rr),
                    mi == m,
                    0 <= m <= 1_000_000_001,
                    -mi <= di <= mi,
                    -mi <= dj <= mi + 1,
                cur == ((di + m) * w + (dj + m)) * w,
                w == 2 * m + 1,
                offsets@ == self.sphere_prefix(rr, cur as nat),
                    r2 == rr * rr,
                    scale2 == SCALE * SCALE,
                    forall|t: int|
                        0 <= t < offsets.len() ==> is_sphere_shift(*self, #[trigger] offsets@[t] as int, rr),
                    forall|a: int, b: int, c: int|
                        #![trigger in_sphere(a, b, c, rr)]
                        in_sphere(a, b, c, rr) && (a < di || (a == di && b < dj)) ==> has_offset(
                            offsets@,
                            offsets.len() as int,
                            self.shift_of(a, b, c),
                        ),
                decreases mi + 1 - dj,
            {
                let mut dk: isize = -mi;
                while dk <= mi
                    invariant
                        self.wf(),
                        self.sphere_fits(rr),
                        rr == radius,
                        m == search_range(rr),
                        mi == m,
                        0 <= m <= 1_000_000_001,
                        -mi <= di <= mi,
                        -mi <= dj <= mi,
                        -mi <= dk <= mi + 1,
                    cur == ((di + m) * w + (dj + m)) * w + (dk + m),
                    w == 2 * m + 1,
                    offsets@ == self.sphere_prefix(rr, cur as nat),
                        r2 == rr * rr,
                        scale2 == SCALE * SCALE,
                        forall|t: int|
                            0 <= t < offsets.len() ==> is_sphere_shift(*self, #[trigger] offsets@[t] as int, rr),
                        forall|a: int, b: int, c: int|
                            #![trigger in_sphere(a, b, c, rr)]
                            in_sphere(a, b, c, rr) && (a < di || (a == di && b < dj) || (a == di && b == dj && c
                                < dk)) ==> has_offset(offsets@, offsets.len() as int, self.shift_of(a, b, c)),
                    decreases mi + 1 - dk,
                {
                    proof {
                        assert((di as int) * (di as int) <= 1_000_000_002_000_000_001) by (nonlinear_arith)
                            requires -1_000_000_001 <= di <= 1_000_000_001;
                        assert((dj as int) * (dj as int) <= 1_000_000_002_000_000_001) by (nonlinear_arith)
                            requires -1_000_000_001 <= dj <= 1_000_000_001;
                        assert((dk as int) * (dk as int) <= 1_000_000_002_000_000_001) by (nonlinear_arith)
                            requires -1_000_000_001 <= dk <= 1_000_000_001;
                        assert((di as int) * (di as int) >= 0 && (dj as int) * (dj as int) >= 0 && (dk as int) * (
                        dk as int) >= 0) by (nonlinear_arith);
                    }
                    proof {
                        lemma_triple_at(rr, di + m, dj + m, dk + m);
                    }
                    let a = di as i128;
                    let b = dj as i128;
                    let c = dk as i128;
                    proof {
                        let s3 = (a * a + b * b + c * c) as int;
                        assert(0 <= s3 <= 3_000_000_006_000_000_003);
                        assert(s3 * 1_000_000 <= 3_000_000_006_000_000_003_000_000) by (nonlinear_arith)
                            requires 0 <= s3 <= 3_000_000_006_000_000_003;
                    }
                    let dist2 = (a * a + b * b + c * c) * scale2;
                    let ghost before = offsets@;
                    if dist2 <= r2 {
                        proof {
                            lemma_shift_fits(*self, rr, di as int, dj as int, dk as int);
                        }
                        let shift = self.ijk_to_shift(di, dj, dk);
                        offsets.push(shift);
                        proof {
                            lemma_push_offset(before, shift);
                            assert(in_sphere(di as int, dj as int, dk as int, rr));
                            assert(offsets@[offsets.len() - 1] == shift);
                            assert forall|t: int| 0 <= t < offsets.len() implies is_sphere_shift(
                                *self,
                                #[trigger] offsets@[t] as int,
                                rr,
                            ) by {
                                if t < before.len() {
                                    assert(offsets@[t] == before[t]);
                                } else {
                                    assert(in_sphere(di as int, dj as int, dk as int, rr));
                                    assert(offsets@[t] == self.shift_of(di as int, dj as int, dk as int));
                                }
                            }
                        }
                    } else {
                        proof {
                            assert(!in_sphere(di as int, dj as int, dk as int, rr));
                        }
                    }
                    proof {
                        assert forall|a: int, b: int, c: int|
                            #![trigger in_sphere(a, b, c, rr)]
                            in_sphere(a, b, c, rr) && (a < di || (a == di && b < dj) || (a == di && b == dj && c
                                < dk + 1)) implies has_offset(offsets@, offsets.len() as int, self.shift_of(a, b, c)) by {
                            if !(a == di && b == dj && c == dk) {
                                assert(has_offset(before, before.len() as int, self.shift_of(a, b, c)));
                            }
                        }
                    }
                    proof {
                        assert(offsets@ =~= self.sphere_prefix(rr, (cur + 1) as nat));
                        cur = cur + 1;
                    }
                    dk = dk + 1;
                }
                proof {
                    assert(((di + m) * w + (dj + m)) * w + w == ((di + m) * w + (dj + 1 + m)) * w) by (nonlinear_arith);
                }
                dj = dj + 1;
            }
            proof {
                assert((di + m) * w * w + w * w == (di + 1 + m) * w * w) by (nonlinear_arith);
                assert(((di + m) * w + w) * w == (di + m) * w * w + w * w) by (nonlinear_arith);
            }
            di = di + 1;
        }
        proof {
            assert(di + m == w);
        }
        offsets
    }

    /// Write `set_value` into every cell `center + shift` (for each shift
    /// of `offsets`) that lies in `[0, total_voxels)`; `center` is the
    /// linear index of cell (ci, cj, ck).
    #[verifier::spinoff_prover]
    #[verifier::rlimit(40)]
    pub fn modify_sphere_with_offsets(&mut self, ci: usize, cj: usize, ck: usize, offsets: &[isize], set_value: bool)
        requires
            old(self).wf(),
            old(self).in_bounds(ci as int, cj as int, ck as int),
        ensures
            final(self).wf(),
            final(self).same_frame(old(self)),
            final(self)@ == Seq::new(
                old(self).total_voxels as nat,
                |n: int|
                    if offsets_reach(
                        offsets@,
                        old(self).index_of(ci as int, cj as int, ck as int),
                        old(self).total_voxels as int,
                        n,
                    ) {
                        set_value
                    } else {
                        old(self)@[n]
                    },
            ),
    {
        let center = self.ijk_to_index(ci, cj, ck);
        let total = self.total_voxels;
        let ghost c = center as int;
        let mut t: usize = 0;
        while t < offsets.len()
            invariant
                self.wf(),
                self.same_frame(old(self)),
                total == self.total_voxels,
                center == old(self).index_of(ci as int, cj as int, ck as int),
                c == center,
                center < total,
                0 <= t <= offsets.len(),
                forall|n: int|
                    0 <= n < total ==> #[trigger] self@[n] == (if has_offset(offsets@, t as int, n - c) {
                        set_value
                    } else {
                        old(self)@[n]
                    }),
            decreases offsets.len() - t,
        {
            let shift = offsets[t];
            let v = center as i128 + shift as i128;
            let ghost before = self@;
            if 0 <= v && v < total as i128 {
                self.set_voxel_index(v as usize, set_value);
            }
            proof {
                assert forall|n: int| 0 <= n < total implies #[trigger] self@[n] == (if has_offset(
                    offsets@,
                    t + 1,
                    n - c,
                ) {
                    set_value
                } else {
                    old(self)@[n]
                }) by {
                    if n == v {
                        assert(offsets@[t as int] == n - c);
                    } else {
                        assert(self@[n] == before[n]);
                        if has_offset(offsets@, t + 1, n - c) {
                            let u = choose|u: int| 0 <= u < t + 1 && u < offsets@.len() && #[trigger] offsets@[u] == n - c;
                            assert(u != t);
                            assert(has_offset(offsets@, t as int, n - c));
                        }
                    }
                }
            }
            t = t + 1;
        }
        proof {
            assert(self@ =~= Seq::new(
                old(self).total_voxels as nat,
                |n: int|
                    if offsets_reach(offsets@, c, old(self).total_voxels as int, n) {
                        set_value
                    } else {
                        old(self)@[n]
                    },
            ));
        }
    }

    /// Compute the offsets of a sphere of `radius` thousandths of a cell,
    /// then write `set_value` into the cells they reach from (ci, cj, ck).
    #[verifier::spinoff_prover]
    #[verifier::rlimit(40)]
    pub fn modify_sphere(&mut self, ci: usize, cj: usize, ck: usize, radius: i64, set_value: bool)
        requires
            old(self).wf(),
            old(self).in_bounds(ci as int, cj as int, ck as int),
            old(self).sphere_fits(radius as int),
        ensures
            final(self).wf(),
            final(self).same_frame(old(self)),
            final(self)@ == Seq::new(
                old(self).total_voxels as nat,
                |n: int|
                    if old(self).sphere_reaches(old(self).index_of(ci as int, cj as int, ck as int), radius as int, n) {
                        set_value
                    } else {
                        old(self)@[n]
                    },
            ),
    {
        let offsets = self.compute_offsets(radius);
        let ghost g0: Grid3D = *self;
        let ghost c = self.index_of(ci as int, cj as int, ck as int);
        self.modify_sphere_with_offsets(ci, cj, ck, offsets.as_slice(), set_value);
        proof {
            assert forall|n: int| 0 <= n < g0.total_voxels implies #[trigger] offsets_reach(
                offsets@,
                c,
                g0.total_voxels as int,
                n,
            ) == g0.sphere_reaches(c, radius as int, n) by {
                if offsets_reach(offsets@, c, g0.total_voxels as int, n) {
                    let t = choose|t: int| 0 <= t < offsets@.len() && t < offsets@.len() && #[trigger] offsets@[t] == n - c;
                    assert(is_sphere_shift(g0, offsets@[t] as int, radius as int));
                }
                if g0.sphere_reaches(c, radius as int, n) {
                    let (di, dj, dk) = choose|di: int, dj: int, dk: int|
                        #![trigger in_sphere(di, dj, dk, radius as int), g0.shift_of(di, dj, dk)]
                        in_sphere(di, dj, dk, radius as int) && n == c + g0.shift_of(di, dj, dk);
                    assert(has_offset(offsets@, offsets@.len() as int, g0.shift_of(di, dj, dk)));
                }
            }
            assert(self@ =~= Seq::new(
                g0.total_voxels as nat,
                |n: int|
                    if g0.sphere_reaches(c, radius as int, n) {
                        set_value
                    } else {
                        g0@[n]
                    },
            ));
        }
    }

    /// Occupy every cell the sphere of `radius` thousandths of a cell around
    /// (ci, cj, ck) reaches.
    pub fn add_sphere(&mut self, ci: usize, cj: usize, ck: usize, radius: i64)
        requires
            old(self).wf(),
            old(self).in_bounds(ci as int, cj as int, ck as int),
            old(self).sphere_fits(radius as int),
        ensures
            final(self).wf(),
            final(self).same_frame(old(self)),
            final(self)@ == Seq::new(
                old(self).total_voxels as nat,
                |n: int|
                    old(self)@[n] || old(self).sphere_reaches(
                        old(self).index_of(ci as int, cj as int, ck as int),
                        radius as int,
                        n,
                    ),
            ),
    {
        self.modify_sphere(ci, cj, ck, radius, true);
        proof {
            let c = old(self).index_of(ci as int, cj as int, ck as int);
            assert(self@ =~= Seq::new(
                old(self).total_voxels as nat,
                |n: int| old(self)@[n] || old(self).sphere_reaches(c, radius as int, n),
            ));
        }
    }

    /// Clear every cell the sphere of `radius` thousandths of a cell around
    /// (ci, cj, ck) reaches.
    pub fn remove_sphere(&mut self, ci: usize, cj: usize, ck: usize, radius: i64)
        requires
            old(self).wf(),
            old(self).in_bounds(ci as int, cj as int, ck as int),
            old(self).sphere_fits(radius as int),
        ensures
            final(self).wf(),
            final(self).same_frame(old(self)),
            final(self)@ == Seq::new(
                old(self).total_voxels as nat,
                |n: int|
                    old(self)@[n] && !old(self).sphere_reaches(
                        old(self).index_of(ci as int, cj as int, ck as int),
                        radius as int,
                        n,
                    ),
            ),
    {
        self.modify_sphere(ci, cj, ck, radius, false);
        proof {
            let c = old(self).index_of(ci as int, cj as int, ck as int);
            assert(self@ =~= Seq::new(
                old(self).total_voxels as nat,
                |n: int| old(self)@[n] && !old(self).sphere_reaches(c, radius as int, n),
            ));
        }
    }
}

/// For a radius of at least zero, the sphere's offset set holds the zero
/// shift, and holds `-o` for every shift `o` it holds.
pub proof fn lemma_offsets_symmetric(g: Grid3D, radius: int)
    requires
        g.wf(),
        radius >= 0,
    ensures
        is_sphere_shift(g, 0, radius),
        forall|o: int| #[trigger] is_sphere_shift(g, o, radius) ==> is_sphere_shift(g, -o, radius),
{
    assert(trunc_div(radius, SCALE as int) >= 0) by {
        vstd::arithmetic::div_mod::lemma_div_pos_is_pos(radius, SCALE as int);
    }
    assert(0 <= radius * radius) by (nonlinear_arith);
    assert((0int * 0 + 0int * 0 + 0int * 0) * (SCALE * SCALE) == 0) by (nonlinear_arith);
    assert(search_range(radius) >= 1);
    assert(in_sphere(0, 0, 0, radius));
    assert(g.shift_of(0, 0, 0) == 0) by (nonlinear_arith);
    assert forall|o: int| #[trigger] is_sphere_shift(g, o, radius) implies is_sphere_shift(g, -o, radius) by {
        let (di, dj, dk) = choose|di: int, dj: int, dk: int|
            #![trigger in_sphere(di, dj, dk, radius), g.shift_of(di, dj, dk)]
            in_sphere(di, dj, dk, radius) && o == g.shift_of(di, dj, dk);
        assert((-di) * (-di) + (-dj) * (-dj) + (-dk) * (-dk) == di * di + dj * dj + dk * dk) by (nonlinear_arith);
        assert(in_sphere(-di, -dj, -dk, radius));
        assert(g.shift_of(-di, -dj, -dk) == -g.shift_of(di, dj, dk)) by (nonlinear_arith);
    }
}

/// Earlier entries of the offset list stay in place as the search goes on.
proof fn lemma_prefix_stable(g: Grid3D, radius: int, t: nat, t2: nat, i: int)
    requires
        t <= t2,
        0 <= i < g.sphere_prefix(radius, t).len(),
    ensures
        g.sphere_prefix(radius, t2).len() >= g.sphere_prefix(radius, t).len(),
        g.sphere_prefix(radius, t2)[i] == g.sphere_prefix(radius, t)[i],
    decreases t2,
{
    if t2 > t {
        lemma_prefix_stable(g, radius, t, (t2 - 1) as nat, i);
    }
}

/// Every entry of a prefix comes from some earlier displacement in the
/// sphere, at the position given by the entries before it.
proof fn lemma_prefix_source(g: Grid3D, radius: int, t: nat, i: int)
    requires
        0 <= i < g.sphere_prefix(radius, t).len(),
    ensures
        exists|u: int|
            0 <= u < t && #[trigger] g.sphere_prefix(radius, u as nat).len() == i && {
                let d = triple_at(radius, u);
                in_sphere(d.0, d.1, d.2, radius)
            },
    decreases t,
{
    let p = g.sphere_prefix(radius, (t - 1) as nat);
    if i < p.len() {
        lemma_prefix_source(g, radius, (t - 1) as nat, i);
        let u = choose|u: int|
            0 <= u < t - 1 && #[trigger] g.sphere_prefix(radius, u as nat).len() == i && {
                let d = triple_at(radius, u);
                in_sphere(d.0, d.1, d.2, radius)
            };
        assert(0 <= u < t);
    } else {
        assert(g.sphere_prefix(radius, (t - 1) as nat).len() == i);
    }
}

/// The displacement at the mirrored position of the search box is the
/// negated displacement.
proof fn lemma_triple_mirror(radius: int, t: int)
    requires
        search_range(radius) >= 0,
        0 <= t < (2 * search_range(radius) + 1) * (2 * search_range(radius) + 1) * (2 * search_range(radius) + 1),
    ensures
        ({
            let m = search_range(radius);
            let w = 2 * m + 1;
            let d = triple_at(radius, t);
            let e = triple_at(radius, w * w * w - 1 - t);
            e == (-d.0, -d.1, -d.2)
        }),
{
    let m = search_range(radius);
    let w = 2 * m + 1;
    crate::grid::lemma_ijk_of_index(w, w, w, t);
    let c = t % w;
    let b = (t % (w * w)) / w;
    let a = t / (w * w);
    assert(t == (a * w + b) * w + c) by (nonlinear_arith)
        requires c + b * w + a * w * w == t;
    lemma_triple_at(radius, a, b, c);
    lemma_triple_at(radius, w - 1 - a, w - 1 - b, w - 1 - c);
    assert(w * w * w - 1 - t == ((w - 1 - a) * w + (w - 1 - b)) * w + (w - 1 - c)) by (nonlinear_arith)
        requires t == (a * w + b) * w + c;
}

/// Entries before a position and entries up to its mirror add up to the
/// whole list.
proof fn lemma_mirror_counts(g: Grid3D, radius: int, k: nat)
    requires
        search_range(radius) >= 0,
        k <= (2 * search_range(radius) + 1) * (2 * search_range(radius) + 1) * (2 * search_range(radius) + 1),
    ensures
        ({
            let w = 2 * search_range(radius) + 1;
            let n = w * w * w;
            g.sphere_prefix(radius, (n - k) as nat).len() + g.sphere_prefix(radius, k).len() == g.sphere_prefix(
                radius,
                n as nat,
            ).len()
        }),
    decreases k,
{
    if k > 0 {
        let w = 2 * search_range(radius) + 1;
        let n = w * w * w;
        lemma_mirror_counts(g, radius, (k - 1) as nat);
        lemma_triple_mirror(radius, k - 1);
        let d = triple_at(radius, k - 1);
        assert((-d.0) * (-d.0) + (-d.1) * (-d.1) + (-d.2) * (-d.2) == d.0 * d.0 + d.1 * d.1 + d.2 * d.2)
            by (nonlinear_arith);
        assert(in_sphere(-d.0, -d.1, -d.2, radius) == in_sphere(d.0, d.1, d.2, radius));
        assert(n - k + 1 == n - (k - 1));
    }
}

/// The offset list reads the same backwards as negated: the entry at the
/// mirrored position is the negated entry. So every shift `o` appears as
/// often as `-o`, and the middle entry is the zero shift.
pub proof fn lemma_offsets_mirror(g: Grid3D, radius: int)
    requires
        g.wf(),
        g.sphere_fits(radius),
        radius >= 0,
    ensures
        forall|i: int|
            0 <= i < g.sphere_offsets(radius).len() ==> (#[trigger] g.sphere_offsets(radius)[g.sphere_offsets(
                radius,
            ).len() - 1 - i]) as int == -(g.sphere_offsets(radius)[i] as int),
        g.sphere_offsets(radius).len() % 2 == 1,
        g.sphere_offsets(radius)[(g.sphere_offsets(radius).len() / 2) as int] == 0,
{
    let m = search_range(radius);
    let w = 2 * m + 1;
    let n = w * w * w;
    assert(trunc_div(radius, SCALE as int) >= 0) by {
        vstd::arithmetic::div_mod::lemma_div_pos_is_pos(radius, SCALE as int);
    }
    assert(w >= 3);
    assert(n >= 1) by (nonlinear_arith)
        requires w >= 3, n == w * w * w;
    let s = g.sphere_offsets(radius);
    let len = s.len() as int;
    assert forall|i: int| 0 <= i < len implies (#[trigger] s[len - 1 - i]) as int == -(s[i] as int) by {
        lemma_prefix_source(g, radius, n as nat, i);
        let t = choose|t: int|
            0 <= t < n && #[trigger] g.sphere_prefix(radius, t as nat).len() == i && {
                let d = triple_at(radius, t);
                in_sphere(d.0, d.1, d.2, radius)
            };
        let d = triple_at(radius, t);
        lemma_prefix_stable(g, radius, (t + 1) as nat, n as nat, i);
        assert(s[i] == g.shift_of(d.0, d.1, d.2) as isize);
        lemma_triple_mirror(radius, t);
        let t2 = n - 1 - t;
        assert((-d.0) * (-d.0) + (-d.1) * (-d.1) + (-d.2) * (-d.2) == d.0 * d.0 + d.1 * d.1 + d.2 * d.2)
            by (nonlinear_arith);
        assert(in_sphere(-d.0, -d.1, -d.2, radius));
        lemma_mirror_counts(g, radius, (t + 1) as nat);
        assert(g.sphere_prefix(radius, t2 as nat).len() == len - 1 - i);
        lemma_prefix_stable(g, radius, (t2 + 1) as nat, n as nat, len - 1 - i);
        assert(s[len - 1 - i] == g.shift_of(-d.0, -d.1, -d.2) as isize);
        lemma_shift_fits(g, radius, d.0, d.1, d.2);
        lemma_shift_fits(g, radius, -d.0, -d.1, -d.2);
        assert(g.shift_of(-d.0, -d.1, -d.2) == -g.shift_of(d.0, d.1, d.2)) by (nonlinear_arith);
    }
    // the zero displacement lies at the middle of the search box
    let mid = n / 2;
    assert(mid == ((m * w + m) * w + m)) by (nonlinear_arith)
        requires n == w * w * w, w == 2 * m + 1, mid == n / 2, m >= 0;
    lemma_triple_at(radius, m, m, m);
    assert((0int * 0 + 0int * 0 + 0int * 0) * (SCALE * SCALE) == 0) by (nonlinear_arith);
    assert(0 <= radius * radius) by (nonlinear_arith);
    assert(in_sphere(0, 0, 0, radius));
    lemma_mirror_counts(g, radius, (mid + 1) as nat);
    assert(2 * ((m * w + m) * w + m) + 1 == w * w * w) by (nonlinear_arith)
        requires w == 2 * m + 1;
    assert(n - (mid + 1) == mid);
    let pm = g.sphere_prefix(radius, mid as nat).len() as int;
    assert(2 * pm + 1 == len);
    lemma_prefix_stable(g, radius, (mid + 1) as nat, n as nat, pm);
    assert(s[pm] == g.shift_of(0, 0, 0) as isize);
    assert(g.shift_of(0, 0, 0) == 0) by (nonlinear_arith);
}

} // verus!
