//! A segment on the lattice as given, before its axes are turned.
use vstd::prelude::*;
use vstd::arithmetic::div_mod::{lemma_fundamental_div_mod, lemma_mod_bound};
use crate::raster::crossing::lemma_meets_iff_sampled;
use crate::raster::frame::Frame;
use crate::raster::lane::{lemma_floor_slab, mirror, Lane};

verus! {

/// A segment from `(x0, u0)` to `(x1, u1)` on a lattice of square cells of
/// side `edge`. Cell `(col, row)` covers `col * edge <= x < (col + 1) * edge`
/// and `row * edge <= u < (row + 1) * edge`.
pub struct Span {
    pub x0: int,
    pub u0: int,
    pub x1: int,
    pub u1: int,
    pub edge: int,
}

impl Span {
    /// The point at the fraction `k / n` of the way from start to end lies in
    /// cell `(col, row)`. Coordinates are scaled by `n` to stay whole.
    pub open spec fn sample_in(self, k: int, n: int, col: int, row: int) -> bool {
        &&& 0 <= k <= n
        &&& 0 < n
        &&& col * self.edge * n <= self.x0 * n + (self.x1 - self.x0) * k < (col + 1) * self.edge
            * n
        &&& row * self.edge * n <= self.u0 * n + (self.u1 - self.u0) * k < (row + 1) * self.edge
            * n
    }

    /// Some point of the segment lies in cell `(col, row)`.
    pub open spec fn crosses(self, col: int, row: int) -> bool {
        exists|k: int, n: int| #[trigger] self.sample_in(k, n, col, row)
    }

    pub open spec fn first_col(self) -> int {
        self.x0 / self.edge
    }

    pub open spec fn first_row(self) -> int {
        self.u0 / self.edge
    }

    pub open spec fn last_col(self) -> int {
        self.x1 / self.edge
    }

    pub open spec fn last_row(self) -> int {
        self.u1 / self.edge
    }

    /// The segment with both axes turned so that travel never decreases.
    pub open spec fn frame(self) -> Frame {
        let x = Lane::between(self.x0, self.x1);
        let u = Lane::between(self.u0, self.u1);
        Frame {
            x,
            u,
            s: self.edge,
            c0: mirror(self.first_col(), x.closed_low),
            r0: mirror(self.first_row(), u.closed_low),
            c1: mirror(self.last_col(), x.closed_low),
            r1: mirror(self.last_row(), u.closed_low),
        }
    }

    /// The way the columns run from start to end: 1 or -1.
    pub open spec fn dir_x(self) -> int {
        if self.x1 >= self.x0 {
            1
        } else {
            -1
        }
    }

    /// The way the rows run from start to end: 1 or -1.
    pub open spec fn dir_u(self) -> int {
        if self.u1 >= self.u0 {
            1
        } else {
            -1
        }
    }

    /// Cell `(col2, row2)` is cell `(col, row)` or lies further towards the
    /// end on both axes.
    pub open spec fn onward(self, col: int, row: int, col2: int, row2: int) -> bool {
        &&& if self.x1 >= self.x0 {
            col <= col2
        } else {
            col2 <= col
        }
        &&& if self.u1 >= self.u0 {
            row <= row2
        } else {
            row2 <= row
        }
    }

    /// Column of the frame that stands for `col`, and back.
    pub open spec fn turn_col(self, col: int) -> int {
        mirror(col, self.x1 >= self.x0)
    }

    /// Row of the frame that stands for `row`, and back.
    pub open spec fn turn_row(self, row: int) -> int {
        mirror(row, self.u1 >= self.u0)
    }
}

/// A floor quotient names the slab of its dividend.
pub proof fn lemma_floor(a: int, s: int)
    requires
        s > 0,
    ensures
        (a / s) * s <= a < (a / s + 1) * s,
{
    lemma_fundamental_div_mod(a, s);
    lemma_mod_bound(a, s);
    assert((a / s) * s == s * (a / s)) by (nonlinear_arith);
    assert((a / s + 1) * s == s * (a / s) + s) by (nonlinear_arith);
}

/// The frame of a segment is well formed.
pub proof fn lemma_frame_wf(sp: Span)
    requires
        sp.edge > 0,
    ensures
        sp.frame().wf(),
{
    lemma_floor(sp.x0, sp.edge);
    lemma_floor(sp.x1, sp.edge);
    lemma_floor(sp.u0, sp.edge);
    lemma_floor(sp.u1, sp.edge);
    lemma_floor_slab(sp.x0, sp.x1, sp.edge, sp.first_col());
    lemma_floor_slab(sp.x1, sp.x0, sp.edge, sp.last_col());
    lemma_floor_slab(sp.u0, sp.u1, sp.edge, sp.first_row());
    lemma_floor_slab(sp.u1, sp.u0, sp.edge, sp.last_row());
}

/// A sample on one axis, seen before and after the axis is turned.
proof fn lemma_turn_axis(a: int, b: int, s: int, k: int, n: int, c: int)
    ensures
        (c * s * n <= a * n + (b - a) * k < (c + 1) * s * n) <==> Lane::between(a, b).sample_holds(
            s,
            k,
            n,
            mirror(c, b >= a),
        ),
{
    if b < a {
        assert((-a) * n + (a - b) * k == -(a * n + (b - a) * k)) by (nonlinear_arith);
        assert((-c - 1) * s * n == -((c + 1) * s * n)) by (nonlinear_arith);
        assert((-c - 1 + 1) * s * n == -(c * s * n)) by (nonlinear_arith);
    }
}

/// A sample of the segment is a sample of its frame, and the reverse.
pub proof fn lemma_turn_sample(sp: Span, k: int, n: int, col: int, row: int)
    ensures
        sp.sample_in(k, n, col, row) <==> sp.frame().sample_at(
            k,
            n,
            sp.turn_col(col),
            sp.turn_row(row),
        ),
{
    lemma_turn_axis(sp.x0, sp.x1, sp.edge, k, n, col);
    lemma_turn_axis(sp.u0, sp.u1, sp.edge, k, n, row);
}

/// The segment passes through a cell exactly when its frame meets the cell
/// that stands for it.
pub proof fn lemma_crosses_iff_meets(sp: Span, col: int, row: int)
    requires
        sp.edge > 0,
    ensures
        sp.crosses(col, row) <==> sp.frame().meets(sp.turn_col(col), sp.turn_row(row)),
{
    let f = sp.frame();
    let c = sp.turn_col(col);
    let r = sp.turn_row(row);
    lemma_frame_wf(sp);
    lemma_meets_iff_sampled(f, c, r);
    if sp.crosses(col, row) {
        let (k, n) = choose|k: int, n: int| #[trigger] sp.sample_in(k, n, col, row);
        lemma_turn_sample(sp, k, n, col, row);
        assert(f.sample_at(k, n, c, r));
    }
    if f.sampled(c, r) {
        let (k, n) = choose|k: int, n: int| #[trigger] f.sample_at(k, n, c, r);
        lemma_turn_sample(sp, k, n, col, row);
        assert(sp.sample_in(k, n, col, row));
    }
}

} // verus!
