//! The closed form agrees with the definition by sample points.
use vstd::prelude::*;
use crate::raster::frame::{lemma_ends_meet, Frame};
use crate::raster::lane::{before, lemma_sample_in_range, within, Lane};

verus! {

/// Two samples of a slanted segment: one lane has entered its slab, the
/// other has not yet left its own. Then the entry is before the exit.
proof fn lemma_entry_before_exit(
    a: int,
    b: int,
    da: int,
    db: int,
    k: int,
    n: int,
    low_a: bool,
    low_b: bool,
)
    requires
        n > 0,
        k >= 0,
        da > 0,
        db > 0,
        before(a * n, da * k, low_a),
        before(db * k, b * n, !low_b),
    ensures
        before(a * db, b * da, low_a && !low_b),
{
    assert((a * db) * n <= (da * k) * db && (!low_a ==> (a * db) * n < (da * k) * db))
        by (nonlinear_arith)
        requires
            a * n <= da * k,
            !low_a ==> a * n < da * k,
            db > 0,
    ;
    assert((db * k) * da <= (b * da) * n && (low_b ==> (db * k) * da < (b * da) * n))
        by (nonlinear_arith)
        requires
            db * k <= b * n,
            low_b ==> db * k < b * n,
            da > 0,
    ;
    assert((da * k) * db == (db * k) * da) by (nonlinear_arith);
    assert(a * db <= b * da && (!low_a || low_b ==> a * db < b * da)) by (nonlinear_arith)
        requires
            (a * db) * n <= (b * da) * n,
            !low_a || low_b ==> (a * db) * n < (b * da) * n,
            n > 0,
    ;
}

/// What a sample in slab `c` says of the slab's two edges.
proof fn lemma_sample_edges(l: Lane, s: int, k: int, n: int, c: int)
    requires
        l.sample_holds(s, k, n, c),
    ensures
        before((c * s - l.start) * n, l.travel * k, l.closed_low),
        before(l.travel * k, l.reach(s, c) * n, !l.closed_low),
{
    assert((c * s - l.start) * n == c * s * n - l.start * n) by (nonlinear_arith);
    assert(((c + 1) * s - l.start) * n == (c + 1) * s * n - l.start * n) by (nonlinear_arith);
}

/// A cell that holds a sample satisfies the closed form.
pub proof fn lemma_sampled_meets(f: Frame, c: int, r: int)
    requires
        f.wf(),
        f.sampled(c, r),
    ensures
        f.meets(c, r),
{
    let (k, n) = choose|k: int, n: int| #[trigger] f.sample_at(k, n, c, r);
    lemma_sample_in_range(f.x, f.s, k, n, c, f.c0, f.c1);
    lemma_sample_in_range(f.u, f.s, k, n, r, f.r0, f.r1);
    if f.x.travel > 0 && f.u.travel > 0 {
        lemma_sample_edges(f.x, f.s, k, n, c);
        lemma_sample_edges(f.u, f.s, k, n, r);
        lemma_entry_before_exit(
            c * f.s - f.x.start,
            f.u.reach(f.s, r),
            f.x.travel,
            f.u.travel,
            k,
            n,
            f.x.closed_low,
            f.u.closed_low,
        );
        lemma_entry_before_exit(
            r * f.s - f.u.start,
            f.x.reach(f.s, c),
            f.u.travel,
            f.x.travel,
            k,
            n,
            f.u.closed_low,
            f.x.closed_low,
        );
        assert(f.x.reach(f.s, c - 1) == c * f.s - f.x.start);
        assert(f.u.reach(f.s, r - 1) == r * f.s - f.u.start);
    }
}

/// Entry and exit times of a moving lane for slab `c`, in units of
/// `1 / (travel * m)`.
proof fn lemma_lane_times(l: Lane, s: int, c: int, c0: int, c1: int, m: int)
    requires
        l.wf(),
        s > 0,
        m > 0,
        l.travel > 0,
        l.holds(l.start, s, c0),
        l.holds(l.finish(), s, c1),
        c0 <= c <= c1,
    ensures
        (c * s - l.start) * m < l.reach(s, c) * m,
        before(0, l.reach(s, c) * m, !l.closed_low),
        before((c * s - l.start) * m, l.travel * m, l.closed_low),
{
    let a = c * s - l.start;
    let b = l.reach(s, c);
    let d = l.travel;
    assert(b == a + s) by (nonlinear_arith)
        requires
            b == (c + 1) * s - l.start,
            a == c * s - l.start,
    ;
    assert((c0 + 1) * s <= (c + 1) * s) by (nonlinear_arith)
        requires
            c0 <= c,
            s > 0,
    ;
    assert(c * s <= c1 * s) by (nonlinear_arith)
        requires
            c <= c1,
            s > 0,
    ;
    assert(a * m < b * m) by (nonlinear_arith)
        requires
            a < b,
            m > 0,
    ;
    assert(0 <= b * m && (l.closed_low ==> 0 < b * m)) by (nonlinear_arith)
        requires
            0 <= b,
            l.closed_low ==> 0 < b,
            m > 0,
    ;
    assert(a * m <= d * m && (!l.closed_low ==> a * m < d * m)) by (nonlinear_arith)
        requires
            a <= d,
            !l.closed_low ==> a < d,
            m > 0,
    ;
}

/// A time between the entry and the exit of a moving lane gives a sample in
/// the slab. `k` is in units of `1 / (2 * travel * m)`.
proof fn lemma_lane_sample(l: Lane, s: int, c: int, k: int, m: int)
    requires
        l.travel > 0,
        m > 0,
        within(k, 2 * ((c * s - l.start) * m), 2 * (l.reach(s, c) * m), l.closed_low),
    ensures
        l.sample_holds(s, k, 2 * (l.travel * m), c),
{
    let d = l.travel;
    let p = l.start;
    let n = 2 * (d * m);
    let a = c * s - p;
    let b = (c + 1) * s - p;
    assert(p * n + d * k - c * s * n == d * (k - 2 * (a * m))) by (nonlinear_arith)
        requires
            n == 2 * (d * m),
            a == c * s - p,
    ;
    assert((c + 1) * s * n - (p * n + d * k) == d * (2 * (b * m) - k)) by (nonlinear_arith)
        requires
            n == 2 * (d * m),
            b == (c + 1) * s - p,
    ;
    let v = k - 2 * (a * m);
    let w = 2 * (b * m) - k;
    assert(d * v >= 0 && (v > 0 ==> d * v > 0)) by (nonlinear_arith)
        requires
            d > 0,
            v >= 0,
    ;
    assert(d * w >= 0 && (w > 0 ==> d * w > 0)) by (nonlinear_arith)
        requires
            d > 0,
            w >= 0,
    ;
}

/// A lane that stands still stays in the slab of its start.
proof fn lemma_lane_still(l: Lane, s: int, c: int, k: int, n: int)
    requires
        l.travel == 0,
        n > 0,
        l.holds(l.start, s, c),
    ensures
        l.sample_holds(s, k, n, c),
{
    let p = l.start;
    assert(l.travel * k == 0) by (nonlinear_arith)
        requires
            l.travel == 0,
    ;
    assert(c * s * n <= p * n && (c * s < p ==> c * s * n < p * n)) by (nonlinear_arith)
        requires
            c * s <= p,
            n > 0,
    ;
    assert(p * n <= (c + 1) * s * n && (p < (c + 1) * s ==> p * n < (c + 1) * s * n))
        by (nonlinear_arith)
        requires
            p <= (c + 1) * s,
            n > 0,
    ;
}

/// The greatest of three.
spec fn max3(a: int, b: int, c: int) -> int {
    if a >= b && a >= c {
        a
    } else if b >= c {
        b
    } else {
        c
    }
}

/// The least of three.
spec fn min3(a: int, b: int, c: int) -> int {
    if a <= b && a <= c {
        a
    } else if b <= c {
        b
    } else {
        c
    }
}

/// A cell that satisfies the closed form holds a sample.
pub proof fn lemma_meets_sampled(f: Frame, c: int, r: int)
    requires
        f.wf(),
        f.meets(c, r),
    ensures
        f.sampled(c, r),
{
    let s = f.s;
    let dx = f.x.travel;
    let du = f.u.travel;
    let mx = if dx > 0 { dx } else { 1 };
    let mu = if du > 0 { du } else { 1 };
    let big = mx * mu;
    assert(big > 0 && big == mu * mx) by (nonlinear_arith)
        requires
            big == mx * mu,
            mx > 0,
            mu > 0,
    ;
    lemma_ends_meet(f);
    let lx = if dx > 0 { (c * s - f.x.start) * mu } else { 0 };
    let hx = if dx > 0 { f.x.reach(s, c) * mu } else { big };
    let lu = if du > 0 { (r * s - f.u.start) * mx } else { 0 };
    let hu = if du > 0 { f.u.reach(s, r) * mx } else { big };
    if dx > 0 {
        lemma_lane_times(f.x, s, c, f.c0, f.c1, mu);
    }
    if du > 0 {
        lemma_lane_times(f.u, s, r, f.r0, f.r1, mx);
    }
    if dx > 0 && du > 0 {
        assert(f.x.reach(s, c - 1) == c * s - f.x.start);
        assert(f.u.reach(s, r - 1) == r * s - f.u.start);
        assert(before(lx, hu, f.x.closed_low && !f.u.closed_low));
        assert(before(lu, hx, f.u.closed_low && !f.x.closed_low));
    }
    let lo = max3(0, lx, lu);
    let hi = min3(big, hx, hu);
    let k = lo + hi;
    let n = 2 * big;
    assert(lo <= hi);
    if dx > 0 {
        lemma_lane_sample(f.x, s, c, k, mu);
    } else {
        lemma_lane_still(f.x, s, c, k, n);
    }
    if du > 0 {
        lemma_lane_sample(f.u, s, r, k, mx);
    } else {
        lemma_lane_still(f.u, s, r, k, n);
    }
    assert(f.sample_at(k, n, c, r));
}

/// The closed form and the definition by samples agree.
pub proof fn lemma_meets_iff_sampled(f: Frame, c: int, r: int)
    requires
        f.wf(),
    ensures
        f.meets(c, r) <==> f.sampled(c, r),
{
    if f.meets(c, r) {
        lemma_meets_sampled(f, c, r);
    }
    if f.sampled(c, r) {
        lemma_sampled_meets(f, c, r);
    }
}

} // verus!
