//! What holds of every map, whatever it has taken in.
use vstd::prelude::*;
use crate::controller::gridmap::GridMap;
use crate::geometry::point::Point;
use crate::raster::span::lemma_floor;
use crate::raster::trace::is_trace;
use crate::raster::walk::Cell;

verus! {

/// `grids` is a run of maps in which each but the first is the one before it
/// after an update with the cloud and the position of the same index.
pub open spec fn is_history(grids: Seq<GridMap>, froms: Seq<Point>, clouds: Seq<Seq<Point>>) -> bool {
    &&& grids.len() == froms.len() + 1
    &&& grids.len() == clouds.len() + 1
    &&& forall|i: int|
        0 <= i < grids.len() - 1 ==> (#[trigger] grids[i + 1]).updated(grids[i], froms[i], clouds[i])
}

/// The middle of the cell that holds a point lies within half a cell side of
/// the point on each axis, and so within one cell side of it.
pub proof fn lemma_center_near_point(grid: GridMap, p: Point)
    requires
        grid.wf(),
        grid.in_view(p),
    ensures
        ({
            let mid = grid.center(grid.row_of(p), grid.col_of(p));
            let dx = mid.pos.x - p.pos.x;
            let dy = mid.pos.y - p.pos.y;
            &&& -grid.edge() <= 2 * dx <= grid.edge()
            &&& -grid.edge() <= 2 * dy <= grid.edge()
            &&& dx * dx + dy * dy <= grid.edge() * grid.edge()
        }),
{
    grid.lemma_wf();
    let s = grid.edge();
    let h = s / 2;
    lemma_floor(p.pos.x - grid.origin().x, s);
    lemma_floor(grid.origin().y - p.pos.y, s);
    let mid = grid.center(grid.row_of(p), grid.col_of(p));
    let dx = mid.pos.x - p.pos.x;
    let dy = mid.pos.y - p.pos.y;
    let col = grid.col_of(p);
    let row = grid.row_of(p);
    assert((col + 1) * s == col * s + s) by (nonlinear_arith);
    assert((row + 1) * s == row * s + s) by (nonlinear_arith);
    assert(-h <= dx <= h);
    assert(-h <= dy <= h);
    assert(dx * dx <= h * h) by (nonlinear_arith)
        requires
            -h <= dx <= h,
    ;
    assert(dy * dy <= h * h) by (nonlinear_arith)
        requires
            -h <= dy <= h,
    ;
    assert(h * h + h * h <= s * s) by (nonlinear_arith)
        requires
            0 <= 2 * h <= s,
    ;
}

/// An update leaves an occupied cell as it is.
pub proof fn lemma_update_keeps_occupied(
    next: GridMap,
    prev: GridMap,
    from: Point,
    cloud: Seq<Point>,
    row: int,
    col: int,
)
    requires
        next.updated(prev, from, cloud),
        prev.in_range(row, col),
        prev.state(row, col).unwrap() is Occupied,
    ensures
        next.state(row, col) == prev.state(row, col),
{
    prev.lemma_state(row, col);
}

/// Grids with the same cells in the same place read a cloud alike.
pub proof fn lemma_same_grid_same_evidence(
    a: GridMap,
    b: GridMap,
    from: Point,
    cloud: Seq<Point>,
    n: int,
    row: int,
    col: int,
)
    requires
        a.same_grid(b),
    ensures
        a.struck(cloud, n, row, col) == b.struck(cloud, n, row, col),
        a.swept(from, cloud, n, row, col) == b.swept(from, cloud, n, row, col),
{
    if a.struck(cloud, n, row, col) {
        let i = choose|i: int| 0 <= i < n && #[trigger] a.lands(cloud[i], row, col);
        assert(b.lands(cloud[i], row, col));
    }
    if b.struck(cloud, n, row, col) {
        let i = choose|i: int| 0 <= i < n && #[trigger] b.lands(cloud[i], row, col);
        assert(a.lands(cloud[i], row, col));
    }
    if a.swept(from, cloud, n, row, col) {
        let i = choose|i: int|
            0 <= i < n && a.in_view(cloud[i]) && #[trigger] a.ray_crosses(from, cloud[i], row, col);
        assert(b.span(from, cloud[i]) == a.span(from, cloud[i]));
        assert(b.ray_crosses(from, cloud[i], row, col));
    }
    if b.swept(from, cloud, n, row, col) {
        let i = choose|i: int|
            0 <= i < n && b.in_view(cloud[i]) && #[trigger] b.ray_crosses(from, cloud[i], row, col);
        assert(b.span(from, cloud[i]) == a.span(from, cloud[i]));
        assert(a.ray_crosses(from, cloud[i], row, col));
    }
}

/// Once a cell is occupied, it stays as it is through every later update.
pub proof fn lemma_occupied_stays(
    grids: Seq<GridMap>,
    froms: Seq<Point>,
    clouds: Seq<Seq<Point>>,
    i: int,
    j: int,
    row: int,
    col: int,
)
    requires
        is_history(grids, froms, clouds),
        0 <= i <= j < grids.len(),
        grids[i].in_range(row, col),
        grids[i].state(row, col).unwrap() is Occupied,
    ensures
        grids[j].in_range(row, col),
        grids[j].state(row, col) == grids[i].state(row, col),
    decreases j - i,
{
    if i < j {
        lemma_occupied_stays(grids, froms, clouds, i, j - 1, row, col);
        assert(grids[j - 1 + 1].updated(grids[j - 1], froms[j - 1], clouds[j - 1]));
        lemma_update_keeps_occupied(grids[j], grids[j - 1], froms[j - 1], clouds[j - 1], row, col);
    }
}

/// A cloud whose points all lie outside the grid changes no cell.
pub proof fn lemma_outside_changes_nothing(
    next: GridMap,
    prev: GridMap,
    from: Point,
    cloud: Seq<Point>,
    row: int,
    col: int,
)
    requires
        next.updated(prev, from, cloud),
        forall|i: int| 0 <= i < cloud.len() ==> !prev.in_view(#[trigger] cloud[i]),
        prev.in_range(row, col),
    ensures
        next.state(row, col) == prev.state(row, col),
{
    prev.lemma_state(row, col);
}

/// The same update a second time changes no cell.
pub proof fn lemma_update_twice(
    twice: GridMap,
    once: GridMap,
    prev: GridMap,
    from: Point,
    cloud: Seq<Point>,
    row: int,
    col: int,
)
    requires
        once.updated(prev, from, cloud),
        twice.updated(once, from, cloud),
        prev.in_range(row, col),
    ensures
        twice.state(row, col) == once.state(row, col),
{
    lemma_same_grid_same_evidence(once, prev, from, cloud, cloud.len() as int, row, col);
    prev.lemma_state(row, col);
}

/// After a ray to a point on the grid, no cell of the grid along the ray is
/// left unknown: the cells that the ray passes through, each next to the one
/// before it, are free space or occupied.
pub proof fn lemma_ray_leaves_no_gap(
    next: GridMap,
    prev: GridMap,
    from: Point,
    hit: Point,
    path: Seq<Cell>,
    i: int,
)
    requires
        next.rayed(prev, from, hit),
        prev.in_view(hit),
        is_trace(prev.span(from, hit), path),
        0 <= i < path.len(),
        prev.in_range(path[i].row as int, path[i].col as int),
    ensures
        !(next.state(path[i].row as int, path[i].col as int).unwrap() is Unknown),
        next.state(path[i].row as int, path[i].col as int).unwrap() is Occupied <==> prev.state(
            path[i].row as int,
            path[i].col as int,
        ).unwrap() is Occupied || i == path.len() - 1,
{
    let row = path[i].row as int;
    let col = path[i].col as int;
    prev.lemma_state(row, col);
    assert(prev.ray_crosses(from, hit, row, col));
    if prev.lands(hit, row, col) && i < path.len() - 1 {
        crate::raster::trace::lemma_trace_distinct(prev.span(from, hit), path, i, path.len() - 1);
    }
}

} // verus!
