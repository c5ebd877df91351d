//! A square grid of cells, each unknown, free or occupied.
//!
//! Column `c` covers the world coordinates `x` with
//! `anchor.x + c * cell_size <= x < anchor.x + (c + 1) * cell_size`; row `r`
//! covers the `y` with `anchor.y - (r + 1) * cell_size < y <= anchor.y - r *
//! cell_size`, so rows grow as `y` falls.
use vstd::prelude::*;
use crate::geometry::point::Point;
use crate::geometry::vector::Vector;
use crate::math::{floor_div, saturate, saturated, Scalar};
use crate::pointcloud::PointCloud;
use crate::raster::span::Span;
use crate::raster::trace::{is_trace, trace};
use crate::raster::walk::{Cell, Walker};
use crate::simulation::robot::Pose;

verus! {

/// What is known of one cell.
#[derive(Debug, Copy, Clone, PartialEq, Eq, Structural)]
pub enum CellState {
    Unknown,
    Freespace,
    Occupied(u32),
}

/// The mark that a cell carries once a return has fallen in it.
pub const OBSTACLE: u32 = 1;

impl CellState {
    /// The state after new evidence: `struck` where a return fell in the
    /// cell, `swept` where a ray passed through it. An occupied cell stays as
    /// it is; a return outweighs a ray.
    pub open spec fn merged(self, struck: bool, swept: bool) -> CellState {
        match self {
            CellState::Occupied(_) => self,
            _ => if struck {
                CellState::Occupied(OBSTACLE)
            } else if swept {
                CellState::Freespace
            } else {
                self
            },
        }
    }

    pub fn is_occupied(&self) -> (b: bool)
        ensures
            b == (*self is Occupied),
    {
        match self {
            CellState::Occupied(_) => true,
            _ => false,
        }
    }
}

/// The occupancy grid.
pub struct GridMap {
    anchor: Vector,
    cell_size: Scalar,
    size: usize,
    cells: Vec<CellState>,
}

/// Cells of a square grid stored row by row have distinct places.
proof fn lemma_index(side: int, row: int, col: int, row2: int, col2: int)
    requires
        0 <= row < side,
        0 <= col < side,
        0 <= row2 < side,
        0 <= col2 < side,
    ensures
        0 <= row * side + col < side * side,
        row * side + col == row2 * side + col2 ==> row == row2 && col == col2,
{
    assert(0 <= row * side && row * side + side <= side * side) by (nonlinear_arith)
        requires
            0 <= row,
            row + 1 <= side,
    ;
    if row < row2 {
        assert(row * side + side <= row2 * side) by (nonlinear_arith)
            requires
                row + 1 <= row2,
                side > 0,
        ;
    }
    if row2 < row {
        assert(row2 * side + side <= row * side) by (nonlinear_arith)
            requires
                row2 + 1 <= row,
                side > 0,
        ;
    }
}

impl GridMap {
    /// The grid has cells, they have a size, and each has its state.
    #[verifier::type_invariant]
    pub closed spec fn wf(self) -> bool {
        &&& self.cell_size > 0
        &&& self.size > 0
        &&& self.cells@.len() == self.size * self.size
    }

    /// Number of rows, and of columns.
    pub closed spec fn side(self) -> int {
        self.size as int
    }

    /// Length of a cell's side.
    pub closed spec fn edge(self) -> int {
        self.cell_size as int
    }

    /// The world point at the corner of row 0 and column 0.
    pub closed spec fn origin(self) -> Vector {
        self.anchor
    }

    pub open spec fn in_range(self, row: int, col: int) -> bool {
        0 <= row < self.side() && 0 <= col < self.side()
    }

    /// The state of the cell at `(row, col)`, if the grid has that cell.
    pub closed spec fn state(self, row: int, col: int) -> Option<CellState> {
        if self.in_range(row, col) {
            Some(self.cells@[row * self.size + col])
        } else {
            None
        }
    }

    /// Column of the cell that holds `p`.
    pub open spec fn col_of(self, p: Point) -> int {
        (p.pos.x - self.origin().x) / self.edge()
    }

    /// Row of the cell that holds `p`.
    pub open spec fn row_of(self, p: Point) -> int {
        (self.origin().y - p.pos.y) / self.edge()
    }

    /// `p` lies in a cell of the grid.
    pub open spec fn in_view(self, p: Point) -> bool {
        self.in_range(self.row_of(p), self.col_of(p))
    }

    /// `p` lies in the cell at `(row, col)`.
    pub open spec fn lands(self, p: Point, row: int, col: int) -> bool {
        self.row_of(p) == row && self.col_of(p) == col
    }

    /// The segment from `from` to `to`, measured from the anchor in the
    /// directions in which columns and rows grow.
    pub open spec fn span(self, from: Point, to: Point) -> Span {
        Span {
            x0: from.pos.x - self.origin().x,
            u0: self.origin().y - from.pos.y,
            x1: to.pos.x - self.origin().x,
            u1: self.origin().y - to.pos.y,
            edge: self.edge(),
        }
    }

    /// Some point of the segment from `from` to `to` lies in the cell at
    /// `(row, col)`.
    pub open spec fn ray_crosses(self, from: Point, to: Point, row: int, col: int) -> bool {
        self.span(from, to).crosses(col, row)
    }

    /// One of the first `n` points of `cloud` lies in the cell at
    /// `(row, col)`.
    pub open spec fn struck(self, cloud: Seq<Point>, n: int, row: int, col: int) -> bool {
        exists|i: int| 0 <= i < n && #[trigger] self.lands(cloud[i], row, col)
    }

    /// The ray from `from` to one of the first `n` points of `cloud` that lie
    /// on the grid passes through the cell at `(row, col)`.
    pub open spec fn swept(
        self,
        from: Point,
        cloud: Seq<Point>,
        n: int,
        row: int,
        col: int,
    ) -> bool {
        exists|i: int|
            0 <= i < n && self.in_view(cloud[i]) && #[trigger] self.ray_crosses(
                from,
                cloud[i],
                row,
                col,
            )
    }

    /// Both grids have the same cells in the same place.
    pub open spec fn same_grid(self, other: GridMap) -> bool {
        &&& self.side() == other.side()
        &&& self.edge() == other.edge()
        &&& self.origin() == other.origin()
    }

    /// `self` is `prev` after the rays from `from` to the first `n` points
    /// of `cloud`.
    pub open spec fn observed(self, prev: GridMap, from: Point, cloud: Seq<Point>, n: int) -> bool {
        &&& self.same_grid(prev)
        &&& forall|row: int, col: int|
            #![trigger self.state(row, col)]
            prev.in_range(row, col) ==> self.state(row, col) == Some(
                prev.state(row, col).unwrap().merged(
                    prev.struck(cloud, n, row, col),
                    prev.swept(from, cloud, n, row, col),
                ),
            )
    }

    /// `self` is `prev` after an update with `cloud`, sensed from `from`.
    pub open spec fn updated(self, prev: GridMap, from: Point, cloud: Seq<Point>) -> bool {
        self.observed(prev, from, cloud, cloud.len() as int)
    }

    /// `self` is `prev` after the single ray from `from` to `hit`.
    pub open spec fn rayed(self, prev: GridMap, from: Point, hit: Point) -> bool {
        &&& self.same_grid(prev)
        &&& forall|row: int, col: int|
            #![trigger self.state(row, col)]
            prev.in_range(row, col) ==> self.state(row, col) == Some(
                prev.state(row, col).unwrap().merged(
                    prev.lands(hit, row, col),
                    prev.in_view(hit) && prev.ray_crosses(from, hit, row, col),
                ),
            )
    }

    /// The world point at the middle of the cell at `(row, col)`, rounded
    /// down to whole units on each axis of the grid and kept within the range
    /// of a `Scalar`.
    pub open spec fn center(self, row: int, col: int) -> Point {
        Point {
            pos: Vector {
                x: saturated(self.origin().x + col * self.edge() + self.edge() / 2) as Scalar,
                y: saturated(self.origin().y - row * self.edge() - self.edge() / 2) as Scalar,
            },
        }
    }

    /// `(row, col)` comes before `(row2, col2)` where rows are read one
    /// after another, each from its first column.
    pub open spec fn reads_before(row: int, col: int, row2: int, col2: int) -> bool {
        row < row2 || (row == row2 && col < col2)
    }

    /// `out` lists the cells that are not unknown, each once with its state,
    /// row after row and each row from its first column.
    pub open spec fn lists_marked(self, out: Seq<(usize, usize, CellState)>) -> bool {
        &&& forall|i: int|
            0 <= i < out.len() ==> self.state((#[trigger] out[i]).0 as int, out[i].1 as int)
                == Some(out[i].2) && !(out[i].2 is Unknown)
        &&& forall|row: int, col: int|
            self.in_range(row, col) && !(#[trigger] self.state(row, col).unwrap() is Unknown)
                ==> exists|i: int|
                0 <= i < out.len() && (#[trigger] out[i]).0 == row && out[i].1 == col
        &&& forall|i: int, j: int|
            0 <= i < j < out.len() ==> Self::reads_before(
                (#[trigger] out[i]).0 as int,
                out[i].1 as int,
                (#[trigger] out[j]).0 as int,
                out[j].1 as int,
            )
    }

    /// What every well-formed grid has.
    pub proof fn lemma_wf(self)
        requires
            self.wf(),
        ensures
            0 < self.edge() <= Scalar::MAX,
            0 < self.side(),
    {
    }

    /// The grid has a state for the cells in its range, and for no other.
    pub proof fn lemma_state(self, row: int, col: int)
        ensures
            self.in_range(row, col) <==> self.state(row, col) is Some,
    {
    }

    /// A grid of `size` rows and columns of cells of side `cell_size`, all
    /// unknown, with the corner of row 0 and column 0 at `anchor`.
    pub fn new(size: usize, cell_size: Scalar, anchor: Vector) -> (grid: GridMap)
        requires
            size > 0,
            cell_size > 0,
            size * size <= usize::MAX,
        ensures
            grid.side() == size,
            grid.edge() == cell_size,
            grid.origin() == anchor,
            forall|row: int, col: int|
                grid.in_range(row, col) ==> #[trigger] grid.state(row, col) == Some(
                    CellState::Unknown,
                ),
    {
        let total: usize = size * size;
        let mut cells: Vec<CellState> = Vec::new();
        let mut i: usize = 0;
        while i < total
            invariant
                i <= total,
                cells@.len() == i,
                forall|j: int| 0 <= j < i ==> cells@[j] == CellState::Unknown,
            decreases total - i,
        {
            cells.push(CellState::Unknown);
            i = i + 1;
        }
        let grid = GridMap { anchor, cell_size, size, cells };
        proof {
            assert forall|row: int, col: int| grid.in_range(row, col) implies #[trigger] grid.state(
                row,
                col,
            ) == Some(CellState::Unknown) by {
                lemma_index(size as int, row, col, row, col);
            }
        }
        grid
    }

    pub fn size(&self) -> (n: usize)
        ensures
            n == self.side(),
            n > 0,
    {
        proof {
            use_type_invariant(self);
        }
        self.size
    }

    pub fn cell_size(&self) -> (s: Scalar)
        ensures
            s == self.edge(),
            s > 0,
    {
        proof {
            use_type_invariant(self);
        }
        self.cell_size
    }

    pub fn anchor(&self) -> (a: Vector)
        ensures
            a == self.origin(),
    {
        self.anchor
    }

    /// The state of the cell at `(row, col)`; `None` where the grid has no
    /// such cell.
    pub fn cell_state(&self, row: usize, col: usize) -> (st: Option<&CellState>)
        ensures
            match st {
                Some(s) => self.state(row as int, col as int) == Some(*s),
                None => self.state(row as int, col as int) is None,
            },
    {
        proof {
            use_type_invariant(self);
        }
        let total: usize = self.cells.len();
        if row < self.size && col < self.size {
            proof {
                lemma_index(self.size as int, row as int, col as int, row as int, col as int);
            }
            assert(row * self.size + col < total);
            Some(&self.cells[row * self.size + col])
        } else {
            None
        }
    }
    /// The cells that are not unknown, each with its row, column and state,
    /// row after row and each row from its first column.
    pub fn marked_cells(&self) -> (out: Vec<(usize, usize, CellState)>)
        ensures
            self.lists_marked(out@),
    {
        proof {
            use_type_invariant(self);
        }
        let mut out: Vec<(usize, usize, CellState)> = Vec::new();
        let mut row: usize = 0;
        while row < self.size
            invariant
                row <= self.size,
                forall|i: int|
                    0 <= i < out@.len() ==> self.state((#[trigger] out@[i]).0 as int, out@[i].1 as int)
                        == Some(out@[i].2) && !(out@[i].2 is Unknown) && out@[i].0 < row,
                forall|r: int, c: int|
                    self.in_range(r, c) && r < row && !(#[trigger] self.state(r, c).unwrap() is Unknown)
                        ==> exists|i: int|
                        0 <= i < out@.len() && (#[trigger] out@[i]).0 == r && out@[i].1 == c,
                forall|i: int, j: int|
                    0 <= i < j < out@.len() ==> Self::reads_before(
                        (#[trigger] out@[i]).0 as int,
                        out@[i].1 as int,
                        (#[trigger] out@[j]).0 as int,
                        out@[j].1 as int,
                    ),
            decreases self.size - row,
        {
            let mut col: usize = 0;
            while col < self.size
                invariant
                    row < self.size,
                    col <= self.size,
                    forall|i: int|
                        0 <= i < out@.len() ==> self.state(
                            (#[trigger] out@[i]).0 as int,
                            out@[i].1 as int,
                        ) == Some(out@[i].2) && !(out@[i].2 is Unknown) && Self::reads_before(
                            out@[i].0 as int,
                            out@[i].1 as int,
                            row as int,
                            col as int,
                        ),
                    forall|r: int, c: int|
                        self.in_range(r, c) && Self::reads_before(r, c, row as int, col as int) && !(
                        #[trigger] self.state(r, c).unwrap() is Unknown) ==> exists|i: int|
                            0 <= i < out@.len() && (#[trigger] out@[i]).0 == r && out@[i].1 == c,
                    forall|i: int, j: int|
                        0 <= i < j < out@.len() ==> Self::reads_before(
                            (#[trigger] out@[i]).0 as int,
                            out@[i].1 as int,
                            (#[trigger] out@[j]).0 as int,
                            out@[j].1 as int,
                        ),
                decreases self.size - col,
            {
                let ghost before = out@;
                match self.cell_state(row, col) {
                    Some(st) => {
                        match st {
                            CellState::Unknown => {},
                            _ => {
                                out.push((row, col, *st));
                            },
                        }
                    },
                    None => {},
                }
                proof {
                    assert forall|r: int, c: int|
                        self.in_range(r, c) && Self::reads_before(r, c, row as int, col + 1) && !(
                        #[trigger] self.state(r, c).unwrap() is Unknown) implies exists|i: int|
                        0 <= i < out@.len() && (#[trigger] out@[i]).0 == r && out@[i].1 == c by {
                        if r == row && c == col {
                            let j = out@.len() - 1;
                            assert(out@[j].0 == r && out@[j].1 == c);
                        } else {
                            let j = choose|i: int|
                                0 <= i < before.len() && (#[trigger] before[i]).0 == r && before[i].1
                                    == c;
                            assert(out@[j] == before[j]);
                        }
                    }
                }
                col = col + 1;
            }
            row = row + 1;
        }
        out
    }

    /// The cell that holds `p`, whether the grid has that cell or not.
    pub fn cell_of(&self, p: &Point) -> (cell: Cell)
        ensures
            cell.row == self.row_of(*p),
            cell.col == self.col_of(*p),
    {
        proof {
            use_type_invariant(self);
        }
        let s: i64 = self.cell_size as i64;
        Cell {
            row: floor_div(self.anchor.y as i64 - p.pos.y as i64, s),
            col: floor_div(p.pos.x as i64 - self.anchor.x as i64, s),
        }
    }

    /// Row and column of the cell that holds `p`; `None` where `p` lies
    /// outside the grid.
    pub fn locate(&self, p: &Point) -> (place: Option<(usize, usize)>)
        ensures
            match place {
                Some((row, col)) => self.in_view(*p) && self.lands(*p, row as int, col as int),
                None => !self.in_view(*p),
            },
    {
        let cell = self.cell_of(p);
        if cell.row >= 0 && cell.col >= 0 && (cell.row as u64) < (self.size as u64) && (
        cell.col as u64) < (self.size as u64) {
            Some((cell.row as usize, cell.col as usize))
        } else {
            None
        }
    }

    /// The middle of the cell at `(row, col)`; `None` where the grid has no
    /// such cell.
    pub fn cell_center(&self, row: usize, col: usize) -> (mid: Option<Point>)
        ensures
            mid == if self.in_range(row as int, col as int) {
                Some(self.center(row as int, col as int))
            } else {
                None
            },
    {
        proof {
            use_type_invariant(self);
        }
        if row < self.size && col < self.size {
            let s: i128 = self.cell_size as i128;
            assert(0 <= col * s <= 0x1_0000_0000_0000_0000 * 0x8000_0000) by (nonlinear_arith)
                requires
                    0 <= col <= 0x1_0000_0000_0000_0000,
                    0 <= s <= 0x8000_0000,
            ;
            assert(0 <= row * s <= 0x1_0000_0000_0000_0000 * 0x8000_0000) by (nonlinear_arith)
                requires
                    0 <= row <= 0x1_0000_0000_0000_0000,
                    0 <= s <= 0x8000_0000,
            ;
            let x: i128 = self.anchor.x as i128 + (col as i128) * s + s / 2;
            let y: i128 = self.anchor.y as i128 - (row as i128) * s - s / 2;
            Some(Point { pos: Vector { x: saturate(x), y: saturate(y) } })
        } else {
            None
        }
    }

    /// Writes the state of one cell.
    fn put(&mut self, row: usize, col: usize, st: CellState)
        requires
            old(self).in_range(row as int, col as int),
        ensures
            final(self).same_grid(*old(self)),
            final(self).state(row as int, col as int) == Some(st),
            forall|r: int, c: int|
                !(r == row && c == col) ==> #[trigger] final(self).state(r, c) == old(self).state(
                    r,
                    c,
                ),
    {
        proof {
            use_type_invariant(&*self);
        }
        proof {
            lemma_index(self.size as int, row as int, col as int, row as int, col as int);
        }
        let total: usize = self.cells.len();
        assert(row * self.size + col < total);
        let at: usize = row * self.size + col;
        self.cells[at] = st;
        proof {
            assert forall|r: int, c: int| !(r == row && c == col) implies #[trigger] self.state(
                r,
                c,
            ) == old(self).state(r, c) by {
                if self.in_range(r, c) {
                    lemma_index(self.size as int, row as int, col as int, r, c);
                    lemma_index(self.size as int, r, c, r, c);
                }
            }
        }
    }

    /// Marks the cell at `cell` as free space, unless it is occupied or the
    /// grid has no such cell.
    fn sweep(&mut self, cell: Cell)
        ensures
            final(self).same_grid(*old(self)),
            forall|r: int, c: int|
                #![trigger final(self).state(r, c)]
                old(self).in_range(r, c) ==> final(self).state(r, c) == Some(
                    old(self).state(r, c).unwrap().merged(
                        false,
                        r == cell.row && c == cell.col,
                    ),
                ),
    {
        if cell.row >= 0 && cell.col >= 0 && (cell.row as u64) < (self.size as u64) && (
        cell.col as u64) < (self.size as u64) {
            let row: usize = cell.row as usize;
            let col: usize = cell.col as usize;
            let occupied = match self.cell_state(row, col) {
                Some(st) => st.is_occupied(),
                None => false,
            };
            if !occupied {
                self.put(row, col, CellState::Freespace);
            }
        }
    }

    /// Marks the cell at `(row, col)` as occupied, unless it is so already.
    fn strike(&mut self, row: usize, col: usize)
        requires
            old(self).in_range(row as int, col as int),
        ensures
            final(self).same_grid(*old(self)),
            forall|r: int, c: int|
                #![trigger final(self).state(r, c)]
                old(self).in_range(r, c) ==> final(self).state(r, c) == Some(
                    old(self).state(r, c).unwrap().merged(r == row && c == col, false),
                ),
    {
        let occupied = match self.cell_state(row, col) {
            Some(st) => st.is_occupied(),
            None => false,
        };
        if !occupied {
            self.put(row, col, CellState::Occupied(OBSTACLE));
        }
    }

    /// Takes in one ray: the cell of `hit` becomes occupied, and the other
    /// cells that the segment from `from` to `hit` passes through become free
    /// space unless they are occupied. A `hit` outside the grid changes
    /// nothing.
    pub fn observe(&mut self, from: &Point, hit: &Point)
        ensures
            final(self).rayed(*old(self), *from, *hit),
    {
        proof {
            use_type_invariant(&*self);
        }
        let place = self.locate(hit);
        match place {
            None => {},
            Some((row, col)) => {
                let ghost sp = self.span(*from, *hit);
                let ax: i64 = self.anchor.x as i64;
                let ay: i64 = self.anchor.y as i64;
                let mut w = Walker::new(
                    from.pos.x as i64 - ax,
                    ay - from.pos.y as i64,
                    hit.pos.x as i64 - ax,
                    ay - hit.pos.y as i64,
                    self.cell_size as i64,
                );
                while !w.is_done()
                    invariant
                        w.span() == sp,
                        sp == old(self).span(*from, *hit),
                        self.same_grid(*old(self)),
                        forall|r: int, c: int|
                            #![trigger self.state(r, c)]
                            old(self).in_range(r, c) ==> self.state(r, c) == Some(
                                old(self).state(r, c).unwrap().merged(
                                    false,
                                    sp.crosses(c, r) && !w.ahead(c, r),
                                ),
                            ),
                    decreases w.remaining(),
                {
                    proof {
                        use_type_invariant(&w);
                        w.lemma_here();
                    }
                    let cell = w.cell();
                    self.sweep(cell);
                    w.advance();
                }
                proof {
                    use_type_invariant(&w);
                    w.lemma_here();
                }
                self.strike(row, col);
            },
        }
    }

    /// Takes in the returns of one sensing cycle, sensed from `pose`: each
    /// point of `cloud` as one ray from the position of `pose`.
    pub fn update(&mut self, pose: &Pose, cloud: &PointCloud)
        ensures
            final(self).updated(*old(self), (Point { pos: pose.position }), cloud@),
    {
        let from = pose.location();
        let n: usize = cloud.len();
        let mut i: usize = 0;
        while i < n
            invariant
                i <= n,
                n == cloud@.len(),
                from == (Point { pos: pose.position }),
                self.observed(*old(self), from, cloud@, i as int),
            decreases n - i,
        {
            let ghost mid = *self;
            let hit = cloud.points()[i];
            self.observe(&from, &hit);
            proof {
                let prev = *old(self);
                assert forall|row: int, col: int|
                    #![trigger self.state(row, col)]
                    prev.in_range(row, col) implies self.state(row, col) == Some(
                    prev.state(row, col).unwrap().merged(
                        prev.struck(cloud@, i + 1, row, col),
                        prev.swept(from, cloud@, i + 1, row, col),
                    ),
                ) by {
                    assert(mid.state(row, col) == Some(
                        prev.state(row, col).unwrap().merged(
                            prev.struck(cloud@, i as int, row, col),
                            prev.swept(from, cloud@, i as int, row, col),
                        ),
                    ));
                    assert(prev.struck(cloud@, i + 1, row, col) <==> prev.struck(
                        cloud@,
                        i as int,
                        row,
                        col,
                    ) || prev.lands(cloud@[i as int], row, col));
                    assert(prev.swept(from, cloud@, i + 1, row, col) <==> prev.swept(
                        from,
                        cloud@,
                        i as int,
                        row,
                        col,
                    ) || (prev.in_view(cloud@[i as int]) && prev.ray_crosses(
                        from,
                        cloud@[i as int],
                        row,
                        col,
                    )));
                }
            }
            i = i + 1;
        }
    }

    /// Lists the cells that the segment from `from` to `to` passes through,
    /// in the order in which it reaches them, whether the grid has them or
    /// not.
    pub fn trace(&self, from: &Point, to: &Point) -> (path: Vec<Cell>)
        ensures
            is_trace(self.span(*from, *to), path@),
    {
        proof {
            use_type_invariant(self);
        }
        let ax: i64 = self.anchor.x as i64;
        let ay: i64 = self.anchor.y as i64;
        trace(
            from.pos.x as i64 - ax,
            ay - from.pos.y as i64,
            to.pos.x as i64 - ax,
            ay - to.pos.y as i64,
            self.cell_size as i64,
        )
    }
}

} // verus!