//! A segment on the lattice, both axes turned so that travel never decreases,
//! and the closed form of "the segment passes through this cell".
use vstd::prelude::*;
use crate::raster::lane::{before, Lane};

verus! {

/// The two lanes of a segment, the slab width, and the slabs of its ends.
pub struct Frame {
    pub x: Lane,
    pub u: Lane,
    pub s: int,
    pub c0: int,
    pub r0: int,
    pub c1: int,
    pub r1: int,
}

impl Frame {
    /// The slabs have a width, the lanes are well formed, and the end slabs
    /// are those of the ends.
    pub open spec fn wf(self) -> bool {
        &&& self.s > 0
        &&& self.x.wf()
        &&& self.u.wf()
        &&& self.x.holds(self.x.start, self.s, self.c0)
        &&& self.x.holds(self.x.finish(), self.s, self.c1)
        &&& self.u.holds(self.u.start, self.s, self.r0)
        &&& self.u.holds(self.u.finish(), self.s, self.r1)
    }

    /// Some point of the segment lies in cell `(c, r)`.
    pub open spec fn sampled(self, c: int, r: int) -> bool {
        exists|k: int, n: int| #[trigger] self.sample_at(k, n, c, r)
    }

    /// The point at the fraction `k / n` of the segment lies in cell `(c, r)`.
    pub open spec fn sample_at(self, k: int, n: int, c: int, r: int) -> bool {
        &&& 0 <= k <= n
        &&& 0 < n
        &&& self.x.sample_holds(self.s, k, n, c)
        &&& self.u.sample_holds(self.s, k, n, r)
    }

    /// Time at which the `x` lane leaves slab `c`, in units of
    /// `1 / (x.travel * u.travel)`.
    pub open spec fn exit_x(self, c: int) -> int {
        self.x.reach(self.s, c) * self.u.travel
    }

    /// Time at which the `u` lane leaves slab `r`, in the same units.
    pub open spec fn exit_u(self, r: int) -> int {
        self.u.reach(self.s, r) * self.x.travel
    }

    /// Closed form of `sampled`: the cell lies between the end cells, and on
    /// a slanted segment each lane enters its slab before the other leaves.
    pub open spec fn meets(self, c: int, r: int) -> bool {
        &&& self.c0 <= c <= self.c1
        &&& self.r0 <= r <= self.r1
        &&& (self.x.travel > 0 && self.u.travel > 0 ==> {
            &&& before(self.exit_x(c - 1), self.exit_u(r), self.x.closed_low && !self.u.closed_low)
            &&& before(self.exit_u(r - 1), self.exit_x(c), self.u.closed_low && !self.x.closed_low)
        })
    }

    /// From cell `(c, r)` the segment next changes its column.
    pub open spec fn steps_x(self, c: int, r: int) -> bool {
        before(self.exit_x(c), self.exit_u(r), self.x.closed_low || !self.u.closed_low)
    }

    /// From cell `(c, r)` the segment next changes its row.
    pub open spec fn steps_u(self, c: int, r: int) -> bool {
        before(self.exit_u(r), self.exit_x(c), self.u.closed_low || !self.x.closed_low)
    }

    /// The same segment with its axes exchanged.
    pub open spec fn swap(self) -> Frame {
        Frame {
            x: self.u,
            u: self.x,
            s: self.s,
            c0: self.r0,
            r0: self.c0,
            c1: self.r1,
            r1: self.c1,
        }
    }

    /// Column of the cell that the segment reaches after `(c, r)`.
    pub open spec fn next_c(self, c: int, r: int) -> int {
        if self.steps_x(c, r) {
            c + 1
        } else {
            c
        }
    }

    /// Row of the cell that the segment reaches after `(c, r)`.
    pub open spec fn next_r(self, c: int, r: int) -> int {
        if self.steps_u(c, r) {
            r + 1
        } else {
            r
        }
    }
}

/// The end cells are met.
pub proof fn lemma_ends_meet(f: Frame)
    requires
        f.wf(),
    ensures
        f.c0 <= f.c1,
        f.r0 <= f.r1,
        f.meets(f.c0, f.r0),
        f.meets(f.c1, f.r1),
        f.x.travel == 0 ==> f.c0 == f.c1,
        f.u.travel == 0 ==> f.r0 == f.r1,
{
    crate::raster::lane::lemma_slab_monotone(f.x, f.x.start, f.x.finish(), f.s, f.c0, f.c1);
    crate::raster::lane::lemma_slab_monotone(f.u, f.u.start, f.u.finish(), f.s, f.r0, f.r1);
    if f.x.travel == 0 {
        crate::raster::lane::lemma_slab_unique(f.x, f.x.start, f.s, f.c0, f.c1);
    }
    if f.u.travel == 0 {
        crate::raster::lane::lemma_slab_unique(f.u, f.u.start, f.s, f.r0, f.r1);
    }
    if f.x.travel > 0 && f.u.travel > 0 {
        let s = f.s;
        let dx = f.x.travel;
        let du = f.u.travel;
        // start cell
        let ax = f.c0 * s - f.x.start;
        let bu = (f.r0 + 1) * s - f.u.start;
        let au = f.r0 * s - f.u.start;
        let bx = (f.c0 + 1) * s - f.x.start;
        assert(f.x.reach(s, f.c0 - 1) == ax);
        assert(f.u.reach(s, f.r0 - 1) == au);
        lemma_cross(ax, du, bu, dx, f.x.closed_low, f.u.closed_low);
        lemma_cross(au, dx, bx, du, f.u.closed_low, f.x.closed_low);
        // end cell
        let ex = f.c1 * s - f.x.start;
        let fu = (f.r1 + 1) * s - f.u.start;
        let eu = f.r1 * s - f.u.start;
        let fx = (f.c1 + 1) * s - f.x.start;
        assert(f.x.reach(s, f.c1 - 1) == ex);
        assert(f.u.reach(s, f.r1 - 1) == eu);
        lemma_cross_far(ex, du, fu, dx, f.x.closed_low, f.u.closed_low);
        lemma_cross_far(eu, dx, fx, du, f.u.closed_low, f.x.closed_low);
    }
}

/// An entry at or before the start comes before an exit at or after it.
proof fn lemma_cross(a: int, da: int, b: int, db: int, low_a: bool, low_b: bool)
    requires
        da > 0,
        db > 0,
        within_start(a, low_a),
        if low_b { b > 0 } else { b >= 0 },
    ensures
        before(a * da, b * db, low_a && !low_b),
{
    assert(a * da <= 0 && (!low_a ==> a * da < 0)) by (nonlinear_arith)
        requires
            da > 0,
            a <= 0,
            !low_a ==> a < 0,
    ;
    assert(b * db >= 0 && (low_b ==> b * db > 0)) by (nonlinear_arith)
        requires
            db > 0,
            b >= 0,
            low_b ==> b > 0,
    ;
}

/// The near edge of the start slab is at or before the start.
spec fn within_start(a: int, low: bool) -> bool {
    if low {
        a <= 0
    } else {
        a < 0
    }
}

/// An entry at or before the finish comes before an exit at or after it.
/// `a` and `b` are measured from the start; the finish lies `db` along the
/// lane of `a` and `da` along the lane of `b`.
proof fn lemma_cross_far(a: int, da: int, b: int, db: int, low_a: bool, low_b: bool)
    requires
        da > 0,
        db > 0,
        if low_a { a <= db } else { a < db },
        if low_b { b > da } else { b >= da },
    ensures
        before(a * da, b * db, low_a && !low_b),
{
    assert(a * da <= db * da && (!low_a ==> a * da < db * da)) by (nonlinear_arith)
        requires
            da > 0,
            a <= db,
            !low_a ==> a < db,
    ;
    assert(b * db >= da * db && (low_b ==> b * db > da * db)) by (nonlinear_arith)
        requires
            db > 0,
            b >= da,
            low_b ==> b > da,
    ;
    assert(db * da == da * db) by (nonlinear_arith);
}

/// Leaving a slab one later takes longer by the slab width.
proof fn lemma_exit_advance(f: Frame, c: int, d: int)
    requires
        f.wf(),
        c <= d,
    ensures
        f.exit_x(c) <= f.exit_x(d),
        f.exit_x(c + 1) == f.exit_x(c) + f.s * f.u.travel,
        f.u.travel > 0 ==> f.exit_x(c + 1) > f.exit_x(c),
{
    let s = f.s;
    let du = f.u.travel;
    let p = f.x.start;
    assert(((c + 1) * s - p) * du <= ((d + 1) * s - p) * du) by (nonlinear_arith)
        requires
            c <= d,
            s > 0,
            du >= 0,
    ;
    assert(((c + 1 + 1) * s - p) * du == ((c + 1) * s - p) * du + s * du) by (nonlinear_arith);
    assert(du > 0 ==> s * du > 0) by (nonlinear_arith)
        requires
            s > 0,
    ;
}

/// How far the far edge of a slab lies, against the slabs of the two ends.
pub proof fn lemma_reach(l: Lane, s: int, c: int, c0: int, c1: int)
    requires
        l.wf(),
        s > 0,
        l.holds(l.start, s, c0),
        l.holds(l.finish(), s, c1),
        c0 <= c <= c1,
    ensures
        0 <= l.reach(s, c) <= l.travel + s,
        l.closed_low ==> l.reach(s, c) > 0,
        c < c1 ==> before(l.reach(s, c), l.travel, l.closed_low),
        c < c1 ==> l.travel > 0,
        c == c1 ==> before(l.travel, l.reach(s, c), !l.closed_low),
{
    assert((c0 + 1) * s <= (c + 1) * s) by (nonlinear_arith)
        requires
            c0 <= c,
            s > 0,
    ;
    assert((c + 1) * s <= (c1 + 1) * s && (c1 + 1) * s == c1 * s + s) by (nonlinear_arith)
        requires
            c <= c1,
            s > 0,
    ;
    if c < c1 {
        assert((c + 1) * s <= c1 * s) by (nonlinear_arith)
            requires
                c + 1 <= c1,
                s > 0,
        ;
    }
}

/// A step along `x` stays within the columns of the segment.
proof fn lemma_step_x_in_range(f: Frame, c: int, r: int)
    requires
        f.wf(),
        f.meets(c, r),
        !(c == f.c1 && r == f.r1),
        f.steps_x(c, r),
    ensures
        c < f.c1,
{
    if c == f.c1 {
        let ex = f.x.reach(f.s, c);
        let eu = f.u.reach(f.s, r);
        let dx = f.x.travel;
        let du = f.u.travel;
        lemma_reach(f.x, f.s, c, f.c0, f.c1);
        lemma_reach(f.u, f.s, r, f.r0, f.r1);
        assert(r < f.r1);
        assert(du > 0);
        assert(ex * du >= dx * du && (f.x.closed_low ==> ex * du > dx * du)) by (nonlinear_arith)
            requires
                ex >= dx,
                f.x.closed_low ==> ex > dx,
                du > 0,
        ;
        assert(eu * dx <= du * dx && (!f.u.closed_low && dx > 0 ==> eu * dx < du * dx))
            by (nonlinear_arith)
            requires
                eu <= du,
                !f.u.closed_low ==> eu < du,
                dx >= 0,
        ;
        assert(dx * du == du * dx) by (nonlinear_arith);
        assert(false);
    }
}

/// Where another met cell lies further along the same column, the next step
/// is not along `x`.
proof fn lemma_same_column(f: Frame, c: int, r: int, r2: int)
    requires
        f.wf(),
        f.meets(c, r),
        f.meets(c, r2),
        r < r2,
    ensures
        !f.steps_x(c, r),
{
    let dx = f.x.travel;
    let du = f.u.travel;
    lemma_ends_meet(f);
    assert(du > 0);
    lemma_reach(f.x, f.s, c, f.c0, f.c1);
    let ex = f.x.reach(f.s, c);
    if dx > 0 {
        lemma_exit_advance(f.swap(), r, r2 - 1);
        assert(f.swap().exit_x(r) == f.exit_u(r));
        assert(f.swap().exit_x(r2 - 1) == f.exit_u(r2 - 1));
    } else {
        assert(ex * du > 0) by (nonlinear_arith)
            requires
                ex > 0,
                du > 0,
        ;
        assert(f.u.reach(f.s, r) * dx == 0) by (nonlinear_arith)
            requires
                dx == 0,
        ;
    }
}

/// One step from a met cell short of the far end leads to a met cell, and no
/// met cell lies between the two.
pub proof fn lemma_step(f: Frame, c: int, r: int)
    requires
        f.wf(),
        f.meets(c, r),
        !(c == f.c1 && r == f.r1),
    ensures
        f.steps_x(c, r) || f.steps_u(c, r),
        f.steps_x(c, r) ==> c < f.c1,
        f.steps_u(c, r) ==> r < f.r1,
        f.meets(f.next_c(c, r), f.next_r(c, r)),
        forall|c2: int, r2: int|
            #[trigger] f.meets(c2, r2) && c <= c2 && r <= r2 && !(c2 == c && r2 == r) ==> f.next_c(
                c,
                r,
            ) <= c2 && f.next_r(c, r) <= r2,
{
    let g = f.swap();
    assert(g.wf());
    assert(g.meets(r, c) == f.meets(c, r));
    assert(g.steps_x(r, c) == f.steps_u(c, r));
    if f.steps_x(c, r) {
        lemma_step_x_in_range(f, c, r);
    }
    if f.steps_u(c, r) {
        lemma_step_x_in_range(g, r, c);
    }
    lemma_exit_advance(f, c, c);
    lemma_exit_advance(g, r, r);
    lemma_exit_advance(f, c - 1, c - 1);
    lemma_exit_advance(g, r - 1, r - 1);
    assert(g.exit_x(r) == f.exit_u(r));
    assert(g.exit_x(r + 1) == f.exit_u(r + 1));
    assert(g.exit_x(r - 1) == f.exit_u(r - 1));
    assert(f.meets(f.next_c(c, r), f.next_r(c, r)));
    assert forall|c2: int, r2: int|
        #[trigger] f.meets(c2, r2) && c <= c2 && r <= r2 && !(c2 == c && r2 == r) implies f.next_c(
        c,
        r,
    ) <= c2 && f.next_r(c, r) <= r2 by {
        if c2 == c {
            lemma_same_column(f, c, r, r2);
        }
        if r2 == r {
            assert(g.meets(r, c2) == f.meets(c2, r));
            lemma_same_column(g, r, c, c2);
        }
    }
}

} // verus!
