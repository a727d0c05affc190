//! Projection of obstruction segments into angular space, and the exact
//! rational comparison of projected elevation profiles.
//!
//! Angular parametrization (the documented choice): for an observer-relative
//! planar direction `(dx, dy)` the pseudo-angle is
//! `ANG_SCALE * dy / (|dx| + |dy|)` for `dx >= 0`, reflected to
//! `2 * ANG_SCALE - ANG_SCALE * dy / (|dx| + |dy|)` for `dx < 0`; it is a
//! monotone traversal of the directions, ranging over `[ANG_MIN, ANG_MAX)`.
//! The elevation value is `ELEV_SCALE * h / dist` with `dist` the integer
//! square root of the squared planar distance: the scaled tangent of the
//! elevation angle, the conventional horizon-mask ordinate.

use vstd::prelude::*;
use vstd::arithmetic::div_mod::{
    lemma_fundamental_div_mod, lemma_mod_bound,
};
use crate::arith::{div_floor, isqrt, sqrt_floor, is_sqrt, lemma_sqrt_unique};
use crate::{ANG_MIN, ANG_MAX, ANG_SCALE, ELEV_SCALE, ELEV_BOUND, COORD_BOUND, NUM_BOUND};

verus! {

/// A projected segment: an angular interval `[a0, a1)` carrying the linear
/// elevation profile that runs from `y0` at `a0` to `y1` at `a1`.
#[derive(Clone, Copy, PartialEq, Eq, Structural, Debug)]
pub struct Cand {
    pub a0: i64,
    pub a1: i64,
    pub y0: i64,
    pub y1: i64,
}

/// Well-formedness of a projected segment: a non-degenerate angular interval
/// inside the domain, with bounded elevations.
pub open spec fn wf_cand(c: Cand) -> bool {
    &&& ANG_MIN <= c.a0
    &&& c.a0 < c.a1
    &&& c.a1 <= ANG_MAX
    &&& -ELEV_BOUND <= c.y0 <= ELEV_BOUND
    &&& -ELEV_BOUND <= c.y1 <= ELEV_BOUND
}

/// Width of the angular interval of `c`; positive when `c` is well formed.
pub open spec fn den(c: Cand) -> int {
    c.a1 - c.a0
}

/// Numerator of the exact rational elevation of `c` at angle `x`: the profile
/// value at `x` is `num_at(c, x) / den(c)`.
pub open spec fn num_at(c: Cand, x: int) -> int {
    c.y0 * den(c) + (c.y1 - c.y0) * (x - c.a0)
}

/// Whether the angular interval of `c` contains the angle `x`.
pub open spec fn covers(c: Cand, x: int) -> bool {
    c.a0 <= x < c.a1
}

/// The elevation of `c` at angle `x`, rounded toward negative infinity.
pub open spec fn interp(c: Cand, x: int) -> int {
    num_at(c, x) / den(c)
}

/// Exact comparison of two profiles at angle `x`: the elevation of `a` there
/// is at least the elevation of `b`, compared as rationals.
pub open spec fn ge_at(a: Cand, b: Cand, x: int) -> bool {
    num_at(a, x) * den(b) >= num_at(b, x) * den(a)
}

/// Product bound used by the overflow proofs.
pub proof fn lemma_mul_bound(a: int, b: int, ca: int, cb: int)
    by (nonlinear_arith)
    requires
        -ca <= a <= ca,
        -cb <= b <= cb,
        0 <= ca,
        0 <= cb,
    ensures
        -(ca * cb) <= a * b <= ca * cb,
{
}

/// The interpolation numerator of a well-formed candidate is bounded on the
/// angular domain.
pub proof fn lemma_num_bound(c: Cand, x: int)
    by (nonlinear_arith)
    requires
        wf_cand(c),
        ANG_MIN <= x <= ANG_MAX,
    ensures
        -NUM_BOUND <= num_at(c, x) <= NUM_BOUND,
{
}

/// An exact rational comparison carries over to the floored elevations.
pub proof fn lemma_ge_at_interp(a: Cand, b: Cand, x: int)
    requires
        wf_cand(a),
        wf_cand(b),
        ge_at(a, b, x),
    ensures
        interp(a, x) >= interp(b, x),
{
    let da = den(a);
    let db = den(b);
    let na = num_at(a, x);
    let nb = num_at(b, x);
    lemma_fundamental_div_mod(na, da);
    lemma_mod_bound(na, da);
    lemma_fundamental_div_mod(nb, db);
    lemma_mod_bound(nb, db);
    let qa = na / da;
    let ra = na % da;
    let qb = nb / db;
    let rb = nb % db;
    assert(qa >= qb) by (nonlinear_arith)
        requires
            na == da * qa + ra,
            0 <= ra < da,
            nb == db * qb + rb,
            0 <= rb < db,
            na * db >= nb * da,
            1 <= da,
            1 <= db,
    ;
}

/// A profile that is at least another at both ends of an interval is at least
/// it throughout the interval: the difference of the cross products is linear
/// in the angle.
pub proof fn lemma_dominance(w: Cand, c: Cand, lo: int, h: int, x: int)
    requires
        wf_cand(w),
        wf_cand(c),
        lo <= x <= h,
        ge_at(w, c, lo),
        ge_at(w, c, h),
    ensures
        ge_at(w, c, x),
{
    if lo == h {
        assert(x == lo);
    } else {
        let dw = den(w);
        let dc = den(c);
        let sw = w.y1 - w.y0;
        let sc = c.y1 - c.y0;
        let glo = num_at(w, lo) * dc - num_at(c, lo) * dw;
        let gh = num_at(w, h) * dc - num_at(c, h) * dw;
        let gx = num_at(w, x) * dc - num_at(c, x) * dw;
        assert(num_at(w, x) == num_at(w, lo) + sw * (x - lo)) by (nonlinear_arith)
            requires
                num_at(w, x) == w.y0 * (w.a1 - w.a0) + sw * (x - w.a0),
                num_at(w, lo) == w.y0 * (w.a1 - w.a0) + sw * (lo - w.a0),
        ;
        assert(num_at(c, x) == num_at(c, lo) + sc * (x - lo)) by (nonlinear_arith)
            requires
                num_at(c, x) == c.y0 * (c.a1 - c.a0) + sc * (x - c.a0),
                num_at(c, lo) == c.y0 * (c.a1 - c.a0) + sc * (lo - c.a0),
        ;
        assert(num_at(w, h) == num_at(w, lo) + sw * (h - lo)) by (nonlinear_arith)
            requires
                num_at(w, h) == w.y0 * (w.a1 - w.a0) + sw * (h - w.a0),
                num_at(w, lo) == w.y0 * (w.a1 - w.a0) + sw * (lo - w.a0),
        ;
        assert(num_at(c, h) == num_at(c, lo) + sc * (h - lo)) by (nonlinear_arith)
            requires
                num_at(c, h) == c.y0 * (c.a1 - c.a0) + sc * (h - c.a0),
                num_at(c, lo) == c.y0 * (c.a1 - c.a0) + sc * (lo - c.a0),
        ;
        let slope = sw * dc - sc * dw;
        let nwlo = num_at(w, lo);
        let nclo = num_at(c, lo);
        assert(gx == glo + slope * (x - lo)) by (nonlinear_arith)
            requires
                gx == (nwlo + sw * (x - lo)) * dc - (nclo + sc * (x - lo)) * dw,
                glo == nwlo * dc - nclo * dw,
                slope == sw * dc - sc * dw,
        ;
        assert(gh == glo + slope * (h - lo)) by (nonlinear_arith)
            requires
                gh == (nwlo + sw * (h - lo)) * dc - (nclo + sc * (h - lo)) * dw,
                glo == nwlo * dc - nclo * dw,
                slope == sw * dc - sc * dw,
        ;
        assert(gx >= 0) by (nonlinear_arith)
            requires
                gx == glo + slope * (x - lo),
                gh == glo + slope * (h - lo),
                glo >= 0,
                gh >= 0,
                lo <= x <= h,
        ;
    }
}

/// The interpolation numerator of `c` at angle `x`, computed exactly.
pub fn num_at_exec(c: &Cand, x: i64) -> (n: i128)
    requires
        wf_cand(*c),
        ANG_MIN <= x <= ANG_MAX,
    ensures
        n == num_at(*c, x as int),
        -NUM_BOUND <= n <= NUM_BOUND,
{
    proof {
        lemma_mul_bound(c.y0 as int, den(*c), ELEV_BOUND as int, 4 * ANG_SCALE as int);
        lemma_mul_bound(
            c.y1 as int - c.y0 as int,
            x as int - c.a0 as int,
            2 * ELEV_BOUND as int,
            4 * ANG_SCALE as int,
        );
        lemma_num_bound(*c, x as int);
    }
    (c.y0 as i128) * ((c.a1 - c.a0) as i128)
        + ((c.y1 as i128) - (c.y0 as i128)) * ((x as i128) - (c.a0 as i128))
}

/// Exact comparison of the profiles of `a` and `b` at angle `x`.
pub fn ge_at_exec(a: &Cand, b: &Cand, x: i64) -> (r: bool)
    requires
        wf_cand(*a),
        wf_cand(*b),
        ANG_MIN <= x <= ANG_MAX,
    ensures
        r == ge_at(*a, *b, x as int),
{
    let na = num_at_exec(a, x);
    let nb = num_at_exec(b, x);
    proof {
        lemma_mul_bound(na as int, den(*b), NUM_BOUND as int, 4 * ANG_SCALE as int);
        lemma_mul_bound(nb as int, den(*a), NUM_BOUND as int, 4 * ANG_SCALE as int);
    }
    na * ((b.a1 - b.a0) as i128) >= nb * ((a.a1 - a.a0) as i128)
}

/// The elevation of `c` at a covered angle `x`, rounded down.
pub fn interp_exec(c: &Cand, x: i64) -> (y: i64)
    requires
        wf_cand(*c),
        c.a0 <= x <= c.a1,
    ensures
        y == interp(*c, x as int),
        -3 * ELEV_BOUND <= y <= 3 * ELEV_BOUND,
{
    let n = num_at_exec(c, x);
    let d = (c.a1 - c.a0) as i128;
    let q = div_floor(n, d);
    proof {
        lemma_interp_bound(*c, x as int);
    }
    q as i64
}

/// The floored elevation of a well-formed candidate stays within three times
/// the elevation bound anywhere on the angular domain.
pub proof fn lemma_interp_bound(c: Cand, x: int)
    requires
        wf_cand(c),
        c.a0 <= x <= c.a1,
    ensures
        -3 * ELEV_BOUND <= interp(c, x) <= 3 * ELEV_BOUND,
{
    let d = den(c);
    let n = num_at(c, x);
    lemma_fundamental_div_mod(n, d);
    lemma_mod_bound(n, d);
    let q = n / d;
    let r = n % d;
    assert(-(3 * ELEV_BOUND) * d <= n <= (3 * ELEV_BOUND) * d) by (nonlinear_arith)
        requires
            n == c.y0 * d + (c.y1 - c.y0) * (x - c.a0),
            1 <= d,
            c.a0 < c.a1,
            c.a1 - c.a0 == d,
            ANG_MIN <= c.a0,
            c.a1 <= ANG_MAX,
            c.a0 <= x <= c.a1,
            -ELEV_BOUND <= c.y0 <= ELEV_BOUND,
            -ELEV_BOUND <= c.y1 <= ELEV_BOUND,
    ;
    assert(-3 * ELEV_BOUND <= q <= 3 * ELEV_BOUND) by (nonlinear_arith)
        requires
            n == d * q + r,
            0 <= r < d,
            1 <= d <= 4 * ANG_SCALE,
            -(3 * ELEV_BOUND) * d <= n <= (3 * ELEV_BOUND) * d,
    ;
}

/// The pseudo-angle of a nonzero observer-relative planar direction.
pub open spec fn angle_of(dx: int, dy: int) -> int {
    let s = abs_int(dx) + abs_int(dy);
    if dx >= 0 {
        (ANG_SCALE * dy) / s
    } else {
        2 * ANG_SCALE - (ANG_SCALE * dy) / s
    }
}

/// Magnitude of an integer.
pub open spec fn abs_int(v: int) -> int {
    if v >= 0 {
        v
    } else {
        -v
    }
}

/// The scaled elevation tangent of a point at height `h` and planar distance
/// `dist` from the observer.
pub open spec fn elev_of(h: int, dist: int) -> int {
    (ELEV_SCALE * h) / dist
}

/// The elevation value of an observer-relative point: its height over the
/// integer square root of its squared planar distance.
pub open spec fn elev_at(dx: int, dy: int, h: int) -> int {
    elev_of(h, sqrt_floor(dx * dx + dy * dy))
}

/// Whether an observer-relative planar offset is nonzero, so that a direction
/// and a distance are defined.
pub open spec fn planar_nonzero(dx: int, dy: int) -> bool {
    dx != 0 || dy != 0
}

/// The projection of one observer-relative segment, as a spec value: `None`
/// when an endpoint sits on the observer or both endpoints share a
/// pseudo-angle, else the candidate whose ordered angular interval carries the
/// endpoint elevations, endpoint for endpoint.
pub open spec fn project_spec(dx1: int, dy1: int, h1: int, dx2: int, dy2: int, h2: int) -> Option<
    Cand,
> {
    if !planar_nonzero(dx1, dy1) || !planar_nonzero(dx2, dy2) {
        None
    } else {
        let b1 = angle_of(dx1, dy1);
        let b2 = angle_of(dx2, dy2);
        let e1 = elev_at(dx1, dy1, h1);
        let e2 = elev_at(dx2, dy2, h2);
        if b1 < b2 {
            Some(Cand { a0: b1 as i64, a1: b2 as i64, y0: e1 as i64, y1: e2 as i64 })
        } else if b2 < b1 {
            Some(Cand { a0: b2 as i64, a1: b1 as i64, y0: e2 as i64, y1: e1 as i64 })
        } else {
            None
        }
    }
}

/// The pseudo-angle of a nonzero direction, computed exactly.
pub fn angle_exec(dx: i64, dy: i64) -> (r: i64)
    requires
        -2 * COORD_BOUND <= dx <= 2 * COORD_BOUND,
        -2 * COORD_BOUND <= dy <= 2 * COORD_BOUND,
        dx != 0 || dy != 0,
    ensures
        r == angle_of(dx as int, dy as int),
        ANG_MIN <= r <= ANG_MAX,
{
    let ax = if dx >= 0 { dx } else { -dx };
    let ay = if dy >= 0 { dy } else { -dy };
    let s = ax + ay;
    let q = div_floor((ANG_SCALE as i128) * (dy as i128), s as i128);
    proof {
        lemma_ratio_bound(dy as int, s as int);
    }
    if dx >= 0 {
        q as i64
    } else {
        2 * ANG_SCALE - (q as i64)
    }
}

/// The scaled ratio `ANG_SCALE * v / s` lies within `ANG_SCALE` when
/// `|v| <= s`.
pub proof fn lemma_ratio_bound(v: int, s: int)
    requires
        1 <= s,
        -s <= v <= s,
    ensures
        -ANG_SCALE <= (ANG_SCALE * v) / s <= ANG_SCALE,
{
    let n = ANG_SCALE * v;
    lemma_fundamental_div_mod(n, s);
    lemma_mod_bound(n, s);
    let q = n / s;
    let r = n % s;
    assert(-ANG_SCALE <= q <= ANG_SCALE) by (nonlinear_arith)
        requires
            n == ANG_SCALE * v,
            -s <= v <= s,
            n == s * q + r,
            0 <= r < s,
            1 <= s,
    ;
}

/// A quotient by a positive divisor keeps the magnitude bound of its
/// numerator.
pub proof fn lemma_div_magnitude(n: int, d: int, m: int)
    requires
        1 <= d,
        0 <= m,
        -m <= n <= m,
    ensures
        -m <= n / d <= m,
{
    lemma_fundamental_div_mod(n, d);
    lemma_mod_bound(n, d);
    let q = n / d;
    let r = n % d;
    assert(-m <= q <= m) by (nonlinear_arith)
        requires
            n == d * q + r,
            0 <= r < d,
            1 <= d,
            0 <= m,
            -m <= n <= m,
    ;
}

/// The elevation value of an observer-relative point, computed exactly.
pub fn elev_exec(dx: i64, dy: i64, h: i64) -> (r: i64)
    requires
        -2 * COORD_BOUND <= dx <= 2 * COORD_BOUND,
        -2 * COORD_BOUND <= dy <= 2 * COORD_BOUND,
        -COORD_BOUND <= h <= COORD_BOUND,
        dx != 0 || dy != 0,
    ensures
        r == elev_at(dx as int, dy as int, h as int),
        -ELEV_BOUND <= r <= ELEV_BOUND,
{
    proof {
        assert(0 <= (dx as int) * (dx as int) <= 4_000_000_000_000
            && 0 <= (dy as int) * (dy as int) <= 4_000_000_000_000
            && ((dx != 0 || dy != 0) ==> (dx as int) * (dx as int) + (dy as int) * (dy as int)
                >= 1)) by (nonlinear_arith)
            requires
                -2_000_000 <= dx <= 2_000_000,
                -2_000_000 <= dy <= 2_000_000,
        ;
    }
    let sq = (dx as i128) * (dx as i128) + (dy as i128) * (dy as i128);
    let d = isqrt(sq as u64);
    proof {
        assert(d >= 1 && d <= 3_000_000) by (nonlinear_arith)
            requires
                is_sqrt(sq as int, d as int),
                1 <= sq as int <= 8_000_000_000_000,
        ;
        lemma_mul_bound(ELEV_SCALE as int, h as int, ELEV_SCALE as int, COORD_BOUND as int);
        lemma_div_magnitude(
            (ELEV_SCALE as int) * (h as int),
            d as int,
            (ELEV_SCALE as int) * (COORD_BOUND as int),
        );
    }
    let q = div_floor((ELEV_SCALE as i128) * (h as i128), d as i128);
    q as i64
}

/// Projects one observer-relative segment into angular space.  Degenerate
/// segments (an endpoint on the observer, or a zero angular span) yield
/// `None` and are simply skipped by the merge.
pub fn project(dx1: i64, dy1: i64, h1: i64, dx2: i64, dy2: i64, h2: i64) -> (r: Option<Cand>)
    requires
        -2 * COORD_BOUND <= dx1 <= 2 * COORD_BOUND,
        -2 * COORD_BOUND <= dy1 <= 2 * COORD_BOUND,
        -2 * COORD_BOUND <= dx2 <= 2 * COORD_BOUND,
        -2 * COORD_BOUND <= dy2 <= 2 * COORD_BOUND,
        -COORD_BOUND <= h1 <= COORD_BOUND,
        -COORD_BOUND <= h2 <= COORD_BOUND,
    ensures
        r == project_spec(dx1 as int, dy1 as int, h1 as int, dx2 as int, dy2 as int, h2 as int),
        r matches Some(c) ==> wf_cand(c),
{
    if (dx1 == 0 && dy1 == 0) || (dx2 == 0 && dy2 == 0) {
        return None;
    }
    let b1 = angle_exec(dx1, dy1);
    let b2 = angle_exec(dx2, dy2);
    let e1 = elev_exec(dx1, dy1, h1);
    let e2 = elev_exec(dx2, dy2, h2);
    if b1 < b2 {
        Some(Cand { a0: b1, a1: b2, y0: e1, y1: e2 })
    } else if b2 < b1 {
        Some(Cand { a0: b2, a1: b1, y0: e2, y1: e1 })
    } else {
        None
    }
}

} // verus!
