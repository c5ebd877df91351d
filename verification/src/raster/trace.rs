//! The cells of a segment, listed from its start to its end.
use vstd::prelude::*;
use crate::raster::span::Span;
use crate::raster::walk::{bounded, Cell, Walker};

verus! {

/// The cell `(col, row)` occurs in `path`.
pub open spec fn on_path(path: Seq<Cell>, col: int, row: int) -> bool {
    exists|i: int| 0 <= i < path.len() && (#[trigger] path[i]).col == col && path[i].row == row
}

/// `b` follows `a` on the way along `sp`: it is another cell, and on each
/// axis it is the same as `a` or one further towards the end.
pub open spec fn follows(sp: Span, a: Cell, b: Cell) -> bool {
    &&& b.col == a.col || b.col == a.col + sp.dir_x()
    &&& b.row == a.row || b.row == a.row + sp.dir_u()
    &&& b.col != a.col || b.row != a.row
}

/// `path` lists the cells that `sp` passes through, each once, from the cell
/// of its start to the cell of its end.
pub open spec fn is_trace(sp: Span, path: Seq<Cell>) -> bool {
    &&& path.len() >= 1
    &&& path[0].col == sp.first_col()
    &&& path[0].row == sp.first_row()
    &&& path.last().col == sp.last_col()
    &&& path.last().row == sp.last_row()
    &&& forall|i: int|
        0 <= i < path.len() ==> sp.crosses((#[trigger] path[i]).col as int, path[i].row as int)
    &&& forall|col: int, row: int| #[trigger] sp.crosses(col, row) ==> on_path(path, col, row)
    &&& forall|i: int| 0 <= i < path.len() - 1 ==> follows(sp, #[trigger] path[i], path[i + 1])
}

/// How far `c` lies along `sp`, counted in columns and rows.
pub open spec fn progress(sp: Span, c: Cell) -> int {
    (if sp.x1 >= sp.x0 {
        c.col as int
    } else {
        -c.col
    }) + (if sp.u1 >= sp.u0 {
        c.row as int
    } else {
        -c.row
    })
}

/// A later cell of a trace lies further along the segment, so no cell
/// occurs twice.
pub proof fn lemma_trace_distinct(sp: Span, path: Seq<Cell>, i: int, j: int)
    requires
        is_trace(sp, path),
        0 <= i < j < path.len(),
    ensures
        progress(sp, path[i]) < progress(sp, path[j]),
        path[i].col != path[j].col || path[i].row != path[j].row,
    decreases j - i,
{
    if i + 1 < j {
        lemma_trace_distinct(sp, path, i, j - 1);
    }
    assert(follows(sp, path[j - 1], path[j - 1 + 1]));
}

/// A cell occurs on a trace at one place only.
proof fn lemma_place_on_trace(sp: Span, path: Seq<Cell>, i: int, j: int)
    requires
        is_trace(sp, path),
        0 <= i < path.len(),
        0 <= j < path.len(),
    ensures
        progress(sp, path[i]) < progress(sp, path[j]) <==> i < j,
{
    if i < j {
        lemma_trace_distinct(sp, path, i, j);
    }
    if j < i {
        lemma_trace_distinct(sp, path, j, i);
    }
}

/// Two traces of one segment agree as far as both reach.
proof fn lemma_traces_agree(sp: Span, p: Seq<Cell>, q: Seq<Cell>, i: int)
    requires
        is_trace(sp, p),
        is_trace(sp, q),
        0 <= i < p.len(),
        i < q.len(),
    ensures
        p[i] == q[i],
    decreases i,
{
    if i > 0 {
        lemma_traces_agree(sp, p, q, i - 1);
        // the cell p[i] lies on q, and behind q[i - 1]
        assert(sp.crosses(p[i].col as int, p[i].row as int));
        let j = choose|j: int| 0 <= j < q.len() && (#[trigger] q[j]).col == p[i].col && q[j].row == p[i].row;
        lemma_trace_distinct(sp, p, i - 1, i);
        lemma_place_on_trace(sp, q, i - 1, j);
        if j > i {
            // then q[i] lies on p, between p[i - 1] and p[i]
            assert(sp.crosses(q[i].col as int, q[i].row as int));
            let m = choose|m: int| 0 <= m < p.len() && (#[trigger] p[m]).col == q[i].col && p[m].row == q[i].row;
            lemma_trace_distinct(sp, q, i - 1, i);
            lemma_trace_distinct(sp, q, i, j);
            lemma_place_on_trace(sp, p, i - 1, m);
            lemma_place_on_trace(sp, p, m, i);
        }
    }
}

/// A segment has one trace only.
pub proof fn lemma_trace_unique(sp: Span, p: Seq<Cell>, q: Seq<Cell>)
    requires
        is_trace(sp, p),
        is_trace(sp, q),
    ensures
        p == q,
{
    if p.len() < q.len() {
        lemma_traces_agree(sp, p, q, p.len() - 1);
        lemma_trace_distinct(sp, q, p.len() - 1, q.len() - 1);
    }
    if q.len() < p.len() {
        lemma_traces_agree(sp, p, q, q.len() - 1);
        lemma_trace_distinct(sp, p, q.len() - 1, p.len() - 1);
    }
    assert forall|i: int| 0 <= i < p.len() implies p[i] == q[i] by {
        lemma_traces_agree(sp, p, q, i);
    }
    assert(p =~= q);
}

/// Lists the cells that the segment from `(x0, u0)` to `(x1, u1)` passes
/// through, in the order in which it reaches them.
pub fn trace(x0: i64, u0: i64, x1: i64, u1: i64, edge: i64) -> (path: Vec<Cell>)
    requires
        bounded(Span { x0: x0 as int, u0: u0 as int, x1: x1 as int, u1: u1 as int, edge: edge as int }),
    ensures
        is_trace(
            Span { x0: x0 as int, u0: u0 as int, x1: x1 as int, u1: u1 as int, edge: edge as int },
            path@,
        ),
{
    let ghost sp = Span { x0: x0 as int, u0: u0 as int, x1: x1 as int, u1: u1 as int, edge: edge as int };
    let mut w = Walker::new(x0, u0, x1, u1, edge);
    let mut path: Vec<Cell> = Vec::new();
    proof {
        use_type_invariant(&w);
        w.lemma_here();
    }
    path.push(w.cell());
    while !w.is_done()
        invariant
            w.span() == sp,
            path@.len() >= 1,
            path@[0].col == sp.first_col(),
            path@[0].row == sp.first_row(),
            path@.last().col == w.col(),
            path@.last().row == w.row(),
            forall|i: int|
                0 <= i < path@.len() ==> sp.crosses(
                    (#[trigger] path@[i]).col as int,
                    path@[i].row as int,
                ),
            forall|col: int, row: int|
                #[trigger] sp.crosses(col, row) && !w.ahead(col, row) ==> on_path(path@, col, row),
            forall|i: int| 0 <= i < path@.len() - 1 ==> follows(sp, #[trigger] path@[i], path@[i + 1]),
        decreases w.remaining(),
    {
        let ghost before = path@;
        let ghost was = w;
        w.advance();
        proof {
            use_type_invariant(&w);
            w.lemma_here();
        }
        path.push(w.cell());
        proof {
            assert forall|col: int, row: int| #[trigger]
                sp.crosses(col, row) && !w.ahead(col, row) implies on_path(path@, col, row) by {
                if col == was.col() && row == was.row() {
                    let j = before.len() - 1;
                    assert(path@[j] == before[j]);
                } else {
                    assert(!was.ahead(col, row));
                    let j = choose|i: int|
                        0 <= i < before.len() && (#[trigger] before[i]).col == col && before[i].row
                            == row;
                    assert(path@[j] == before[j]);
                }
            }
            assert forall|i: int| 0 <= i < path@.len() - 1 implies follows(
                sp,
                #[trigger] path@[i],
                path@[i + 1],
            ) by {
                if i < before.len() - 1 {
                    assert(path@[i] == before[i]);
                    assert(path@[i + 1] == before[i + 1]);
                }
            }
        }
    }
    proof {
        use_type_invariant(&w);
        w.lemma_here();
        assert forall|col: int, row: int| #[trigger] sp.crosses(col, row) implies on_path(
            path@,
            col,
            row,
        ) by {
            if w.ahead(col, row) {
                let j = path@.len() - 1;
                assert(path@[j].col == col && path@[j].row == row);
            }
        }
    }
    path
}

} // verus!
