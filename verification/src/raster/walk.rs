//! Stepping through the cells of a segment one at a time.
use vstd::prelude::*;
use crate::math::floor_div;
use crate::raster::frame::{lemma_ends_meet, lemma_reach, lemma_step};
use crate::raster::lane::{mirror, Lane};
use crate::raster::span::{lemma_crosses_iff_meets, lemma_floor, lemma_frame_wf, Span};

verus! {

/// Largest magnitude of a coordinate, and largest cell side, that a walker
/// accepts.
pub const LIMIT: i64 = 0x1_0000_0000;

/// A lattice cell by row and column. It may lie outside any grid.
#[derive(Clone, Copy, Debug, PartialEq, Eq, Structural)]
pub struct Cell {
    pub row: i64,
    pub col: i64,
}

/// Coordinates and cell side that a walker can take.
pub open spec fn bounded(sp: Span) -> bool {
    &&& 0 < sp.edge <= LIMIT
    &&& -LIMIT <= sp.x0 <= LIMIT
    &&& -LIMIT <= sp.u0 <= LIMIT
    &&& -LIMIT <= sp.x1 <= LIMIT
    &&& -LIMIT <= sp.u1 <= LIMIT
}

/// A position on the way through the cells of a segment.
pub struct Walker {
    px: i64,
    pu: i64,
    dx: i64,
    du: i64,
    low_x: bool,
    low_u: bool,
    s: i64,
    at: (i64, i64),
    c1: i64,
    r1: i64,
    span: Ghost<Span>,
}

/// A slab index is no further from zero than a coordinate in the slab,
/// but for one.
proof fn lemma_slab_bound(a: int, s: int, q: int)
    requires
        s > 0,
        q * s <= a < (q + 1) * s,
        -LIMIT <= a <= LIMIT,
    ensures
        -LIMIT - 1 <= q <= LIMIT,
{
    if q > LIMIT {
        assert(q * s >= q) by (nonlinear_arith)
            requires
                q > 0,
                s >= 1,
        ;
    }
    if q < -LIMIT - 1 {
        assert((q + 1) * s <= q + 1) by (nonlinear_arith)
            requires
                q + 1 < 0,
                s >= 1,
        ;
    }
}

impl Walker {
    /// The segment that is walked.
    pub closed spec fn span(&self) -> Span {
        self.span@
    }

    /// Column of the cell that the walker stands in.
    pub closed spec fn col(&self) -> int {
        mirror(self.at.0 as int, self.low_x)
    }

    /// Row of the cell that the walker stands in.
    pub closed spec fn row(&self) -> int {
        mirror(self.at.1 as int, self.low_u)
    }

    /// The cell `(col, row)` is the walker's own or lies further towards the
    /// end on both axes.
    pub open spec fn ahead(&self, col: int, row: int) -> bool {
        self.span().onward(self.col(), self.row(), col, row)
    }

    /// Steps that are left at most.
    pub closed spec fn remaining(&self) -> nat {
        ((self.c1 - self.at.0) + (self.r1 - self.at.1)) as nat
    }

    /// The walker stands in a cell of its segment, and its fields agree with
    /// the segment.
    #[verifier::type_invariant]
    pub closed spec fn inv(&self) -> bool {
        let sp = self.span@;
        let f = sp.frame();
        &&& bounded(sp)
        &&& self.s == sp.edge
        &&& self.low_x == (sp.x1 >= sp.x0)
        &&& self.low_u == (sp.u1 >= sp.u0)
        &&& f.x == (Lane { start: self.px as int, travel: self.dx as int, closed_low: self.low_x })
        &&& f.u == (Lane { start: self.pu as int, travel: self.du as int, closed_low: self.low_u })
        &&& f.c1 == self.c1
        &&& f.r1 == self.r1
        &&& f.meets(self.at.0 as int, self.at.1 as int)
    }

    /// The walker stands in the last cell.
    pub open spec fn at_end(&self) -> bool {
        self.col() == self.span().last_col() && self.row() == self.span().last_row()
    }

    /// What holds wherever a walker stands.
    pub proof fn lemma_here(&self)
        requires
            self.inv(),
        ensures
            bounded(self.span()),
            self.span().crosses(self.col(), self.row()),
            self.ahead(self.col(), self.row()),
            -LIMIT - 1 <= self.col() <= LIMIT,
            -LIMIT - 1 <= self.row() <= LIMIT,
            self.at_end() ==> forall|col: int, row: int|
                #[trigger] self.span().crosses(col, row) && self.ahead(col, row) ==> col
                    == self.col() && row == self.row(),
    {
        let sp = self.span@;
        let f = sp.frame();
        lemma_frame_wf(sp);
        lemma_crosses_iff_meets(sp, self.col(), self.row());
        lemma_floor(sp.x0, sp.edge);
        lemma_floor(sp.x1, sp.edge);
        lemma_floor(sp.u0, sp.edge);
        lemma_floor(sp.u1, sp.edge);
        lemma_slab_bound(sp.x0, sp.edge, sp.first_col());
        lemma_slab_bound(sp.x1, sp.edge, sp.last_col());
        lemma_slab_bound(sp.u0, sp.edge, sp.first_row());
        lemma_slab_bound(sp.u1, sp.edge, sp.last_row());
        if self.at_end() {
            assert forall|col: int, row: int|
                #[trigger] sp.crosses(col, row) && self.ahead(col, row) implies col == self.col()
                && row == self.row() by {
                lemma_crosses_iff_meets(sp, col, row);
            }
        }
    }

    /// A walker at the start of the segment from `(x0, u0)` to `(x1, u1)`.
    pub fn new(x0: i64, u0: i64, x1: i64, u1: i64, edge: i64) -> (w: Walker)
        requires
            bounded(Span { x0: x0 as int, u0: u0 as int, x1: x1 as int, u1: u1 as int, edge: edge as int }),
        ensures
            w.span() == (Span { x0: x0 as int, u0: u0 as int, x1: x1 as int, u1: u1 as int, edge: edge as int }),
            w.col() == w.span().first_col(),
            w.row() == w.span().first_row(),
            forall|col: int, row: int| #[trigger] w.span().crosses(col, row) ==> w.ahead(col, row),
    {
        let ghost sp = Span { x0: x0 as int, u0: u0 as int, x1: x1 as int, u1: u1 as int, edge: edge as int };
        let col0: i64 = floor_div(x0, edge);
        let row0: i64 = floor_div(u0, edge);
        let col1: i64 = floor_div(x1, edge);
        let row1: i64 = floor_div(u1, edge);
        proof {
            lemma_slab_bound(x0 as int, edge as int, col0 as int);
            lemma_slab_bound(u0 as int, edge as int, row0 as int);
            lemma_slab_bound(x1 as int, edge as int, col1 as int);
            lemma_slab_bound(u1 as int, edge as int, row1 as int);
            lemma_frame_wf(sp);
            lemma_ends_meet(sp.frame());
        }
        let low_x = x1 >= x0;
        let low_u = u1 >= u0;
        let w = Walker {
            px: if low_x { x0 } else { -x0 },
            pu: if low_u { u0 } else { -u0 },
            dx: if low_x { x1 - x0 } else { x0 - x1 },
            du: if low_u { u1 - u0 } else { u0 - u1 },
            low_x,
            low_u,
            s: edge,
            at: (if low_x { col0 } else { -col0 - 1 }, if low_u { row0 } else { -row0 - 1 }),
            c1: if low_x { col1 } else { -col1 - 1 },
            r1: if low_u { row1 } else { -row1 - 1 },
            span: Ghost(sp),
        };
        proof {
            assert forall|col: int, row: int| #[trigger] sp.crosses(col, row) implies w.ahead(
                col,
                row,
            ) by {
                lemma_crosses_iff_meets(sp, col, row);
            }
        }
        w
    }

    /// The cell that the walker stands in.
    pub fn cell(&self) -> (cell: Cell)
        ensures
            cell.col == self.col(),
            cell.row == self.row(),
    {
        proof {
            use_type_invariant(self);
            self.lemma_here();
        }
        Cell {
            row: if self.low_u { self.at.1 } else { -self.at.1 - 1 },
            col: if self.low_x { self.at.0 } else { -self.at.0 - 1 },
        }
    }

    /// Whether the walker stands in the last cell.
    pub fn is_done(&self) -> (done: bool)
        ensures
            done == self.at_end(),
    {
        proof {
            use_type_invariant(self);
        }
        self.at.0 == self.c1 && self.at.1 == self.r1
    }

    /// Moves to the next cell of the segment.
    pub fn advance(&mut self)
        requires
            !old(self).at_end(),
        ensures
            final(self).span() == old(self).span(),
            final(self).remaining() < old(self).remaining(),
            final(self).col() == old(self).col() || final(self).col() == old(self).col() + old(
                self,
            ).span().dir_x(),
            final(self).row() == old(self).row() || final(self).row() == old(self).row() + old(
                self,
            ).span().dir_u(),
            final(self).col() != old(self).col() || final(self).row() != old(self).row(),
            forall|col: int, row: int|
                final(self).ahead(col, row) ==> #[trigger] old(self).ahead(col, row),
            forall|col: int, row: int|
                #[trigger] old(self).span().crosses(col, row) ==> (final(self).ahead(col, row) <==> old(
                    self,
                ).ahead(col, row) && !(col == old(self).col() && row == old(self).row())),
    {
        let ghost sp = self.span@;
        let ghost f = sp.frame();
        let ghost c = self.at.0 as int;
        let ghost r = self.at.1 as int;
        proof {
            use_type_invariant(&*self);
            lemma_frame_wf(sp);
            lemma_step(f, c, r);
            lemma_reach(f.x, f.s, c, f.c0, f.c1);
            lemma_reach(f.u, f.s, r, f.r0, f.r1);
            self.lemma_here();
        }
        let ex: i64 = (self.at.0 + 1) * self.s - self.px;
        let eu: i64 = (self.at.1 + 1) * self.s - self.pu;
        proof {
            assert(ex == f.x.reach(f.s, c) && eu == f.u.reach(f.s, r));
            assert(0 <= ex <= 3 * LIMIT && 0 <= eu <= 3 * LIMIT);
            assert(0 <= self.dx <= 2 * LIMIT && 0 <= self.du <= 2 * LIMIT);
            assert(0 <= ex * self.du <= (3 * LIMIT) * (2 * LIMIT)) by (nonlinear_arith)
                requires
                    0 <= ex <= 3 * LIMIT,
                    0 <= self.du <= 2 * LIMIT,
            ;
            assert(0 <= eu * self.dx <= (3 * LIMIT) * (2 * LIMIT)) by (nonlinear_arith)
                requires
                    0 <= eu <= 3 * LIMIT,
                    0 <= self.dx <= 2 * LIMIT,
            ;
        }
        assert((3 * LIMIT) * (2 * LIMIT) == 0x6_0000_0000_0000_0000) by (nonlinear_arith);
        let a: i128 = (ex as i128) * (self.du as i128);
        let b: i128 = (eu as i128) * (self.dx as i128);
        let step_x = if self.low_x || !self.low_u {
            a <= b
        } else {
            a < b
        };
        let step_u = if self.low_u || !self.low_x {
            b <= a
        } else {
            b < a
        };
        assert(step_x == f.steps_x(c, r));
        assert(step_u == f.steps_u(c, r));
        let col: i64 = if step_x { self.at.0 + 1 } else { self.at.0 };
        let row: i64 = if step_u { self.at.1 + 1 } else { self.at.1 };
        self.at = (col, row);
        proof {
            assert forall|col: int, row: int| #[trigger] sp.crosses(col, row) implies (self.ahead(
                col,
                row,
            ) <==> old(self).ahead(col, row) && !(col == old(self).col() && row == old(
                self,
            ).row())) by {
                lemma_crosses_iff_meets(sp, col, row);
            }
        }
    }
}

} // verus!
