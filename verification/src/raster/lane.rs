//! One axis of a traversal, turned so that travel never decreases.
//!
//! The lattice cuts an axis into slabs of equal width. A segment that runs
//! towards smaller coordinates is mirrored, which turns slabs closed at their
//! low end into slabs closed at their high end; a lane records which it has.
use vstd::prelude::*;

verus! {

/// `v` lies in the half-open interval between `lo` and `hi`, closed at the
/// low end or at the high end.
pub open spec fn within(v: int, lo: int, hi: int, closed_low: bool) -> bool {
    if closed_low {
        lo <= v < hi
    } else {
        lo < v <= hi
    }
}

/// `a` comes before `b`; they may coincide only where `may_touch` holds.
pub open spec fn before(a: int, b: int, may_touch: bool) -> bool {
    if may_touch {
        a <= b
    } else {
        a < b
    }
}

/// Slab index seen from the mirrored side. Applying it twice gives the
/// index back.
pub open spec fn mirror(c: int, closed_low: bool) -> int {
    if closed_low {
        c
    } else {
        -c - 1
    }
}

/// Motion along one axis from `start` over the distance `travel`.
pub struct Lane {
    pub start: int,
    pub travel: int,
    pub closed_low: bool,
}

impl Lane {
    /// A lane that stands still counts as closed at the low end.
    pub open spec fn wf(self) -> bool {
        self.travel >= 0 && (self.travel == 0 ==> self.closed_low)
    }

    /// Where the motion ends.
    pub open spec fn finish(self) -> int {
        self.start + self.travel
    }

    /// The coordinate `p` lies in slab `c` of width `s`.
    pub open spec fn holds(self, p: int, s: int, c: int) -> bool {
        within(p, c * s, (c + 1) * s, self.closed_low)
    }

    /// The point reached after the fraction `k / n` of the travel lies in
    /// slab `c`. Coordinates are scaled by `n` to stay whole.
    pub open spec fn sample_holds(self, s: int, k: int, n: int, c: int) -> bool {
        within(self.start * n + self.travel * k, c * s * n, (c + 1) * s * n, self.closed_low)
    }

    /// Distance from the start to the far edge of slab `c`.
    pub open spec fn reach(self, s: int, c: int) -> int {
        (c + 1) * s - self.start
    }

    /// The lane of an axis that runs from `a` to `b`.
    pub open spec fn between(a: int, b: int) -> Lane {
        if b >= a {
            Lane { start: a, travel: b - a, closed_low: true }
        } else {
            Lane { start: -a, travel: a - b, closed_low: false }
        }
    }
}

/// A coordinate lies in exactly one slab.
pub proof fn lemma_slab_unique(l: Lane, p: int, s: int, c: int, d: int)
    requires
        s > 0,
        l.holds(p, s, c),
        l.holds(p, s, d),
    ensures
        c == d,
{
    if c < d {
        assert((c + 1) * s <= d * s) by (nonlinear_arith)
            requires
                c + 1 <= d,
                s > 0,
        ;
    }
    if d < c {
        assert((d + 1) * s <= c * s) by (nonlinear_arith)
            requires
                d + 1 <= c,
                s > 0,
        ;
    }
}

/// Slabs are ordered as the coordinates in them.
pub proof fn lemma_slab_monotone(l: Lane, p: int, q: int, s: int, c: int, d: int)
    requires
        s > 0,
        p <= q,
        l.holds(p, s, c),
        l.holds(q, s, d),
    ensures
        c <= d,
{
    if d < c {
        assert((d + 1) * s <= c * s) by (nonlinear_arith)
            requires
                d + 1 <= c,
                s > 0,
        ;
    }
}

/// The slab of a floor quotient, seen from either side.
pub proof fn lemma_floor_slab(a: int, b: int, s: int, q: int)
    requires
        s > 0,
        q * s <= a < (q + 1) * s,
    ensures
        Lane::between(a, b).holds(Lane::between(a, b).start, s, mirror(q, Lane::between(a, b).closed_low)),
        Lane::between(b, a).holds(Lane::between(b, a).finish(), s, mirror(q, Lane::between(b, a).closed_low)),
{
    assert((-q - 1) * s == -((q + 1) * s)) by (nonlinear_arith);
    assert((-q - 1 + 1) * s == -(q * s)) by (nonlinear_arith);
}

/// A sample lies in a slab between those of the two ends.
pub proof fn lemma_sample_in_range(l: Lane, s: int, k: int, n: int, c: int, c0: int, c1: int)
    requires
        l.wf(),
        s > 0,
        0 <= k <= n,
        0 < n,
        l.holds(l.start, s, c0),
        l.holds(l.finish(), s, c1),
        l.sample_holds(s, k, n, c),
    ensures
        c0 <= c <= c1,
{
    let v = l.start * n + l.travel * k;
    assert(l.start * n <= v <= l.finish() * n) by (nonlinear_arith)
        requires
            v == l.start * n + l.travel * k,
            0 <= k <= n,
            l.travel >= 0,
    ;
    if c < c0 {
        assert((c + 1) * s * n <= c0 * s * n) by (nonlinear_arith)
            requires
                c + 1 <= c0,
                s > 0,
                n > 0,
        ;
        assert(c0 * s * n <= l.start * n || (!l.closed_low && c0 * s * n < l.start * n)) by (nonlinear_arith)
            requires
                l.holds(l.start, s, c0),
                n > 0,
        ;
        assert(!l.closed_low ==> c0 * s * n < l.start * n) by (nonlinear_arith)
            requires
                l.holds(l.start, s, c0),
                n > 0,
        ;
    }
    if c1 < c {
        assert((c1 + 1) * s * n <= c * s * n) by (nonlinear_arith)
            requires
                c1 + 1 <= c,
                s > 0,
                n > 0,
        ;
        assert(l.finish() * n <= (c1 + 1) * s * n) by (nonlinear_arith)
            requires
                l.holds(l.finish(), s, c1),
                n > 0,
        ;
        assert(l.closed_low ==> l.finish() * n < (c1 + 1) * s * n) by (nonlinear_arith)
            requires
                l.holds(l.finish(), s, c1),
                n > 0,
        ;
    }
}

} // verus!
