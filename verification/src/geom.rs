//! Exact integer geometry primitives.
//!
//! Coordinates are fixed-point: one drawing unit is `SCALE` subunits, and a
//! point's coordinates are plain `i64` subunit counts. Every predicate the
//! rest of the crate steers by (distances, orientations, turn angles,
//! parametric positions) is computed exactly over these integers, so no
//! floating-point tolerance is needed anywhere.

use vstd::prelude::*;

verus! {

/// Subunits per drawing unit.
pub const SCALE: i64 = 1024;

/// Coordinates are kept within this bound (512 drawing units, a canvas of
/// the size the drawing host works with).
///
/// The bound is set by the exact seed-distance comparison: a clamped
/// squared distance to a segment is the fraction `cross^2 / |ab|^2`, a
/// fourth-power numerator over a second-power denominator of the
/// coordinate bound, and comparing two such fractions cross-multiplies
/// them into a sixth-power product that must fit in `i128`. With the bound
/// at `2^19` subunits that product stays below `2^127`; the next power of
/// two does not. Every other comparator in the crate needs at most fourth
/// powers, so widening the range would take a staged (quotient-then-
/// remainder) fraction comparison, not wider machine integers.
pub const COORD_LIMIT: i64 = 524288;

/// A point of the drawing plane, in subunits.
#[derive(Clone, Copy, PartialEq, Eq, Structural, Debug)]
pub struct Pt {
    pub x: i64,
    pub y: i64,
}

/// A user-drawn line segment between two points.
#[derive(Clone, Copy, PartialEq, Eq, Structural, Debug)]
pub struct LineSeg {
    pub a: Pt,
    pub b: Pt,
}

pub open spec fn iabs(a: int) -> int {
    if a >= 0 {
        a
    } else {
        -a
    }
}

pub open spec fn pt_in_range(p: Pt) -> bool {
    &&& -COORD_LIMIT <= p.x <= COORD_LIMIT
    &&& -COORD_LIMIT <= p.y <= COORD_LIMIT
}

pub open spec fn line_in_range(l: LineSeg) -> bool {
    pt_in_range(l.a) && pt_in_range(l.b)
}

/// Both products of two values bounded by `m` stay within `m * m`.
pub proof fn lemma_mul_bound(a: int, b: int, m: int)
    requires
        -m <= a <= m,
        -m <= b <= m,
        0 <= m,
    ensures
        -(m * m) <= a * b <= m * m,
{
    assert(-(m * m) <= a * b <= m * m) by (nonlinear_arith)
        requires
            -m <= a <= m,
            -m <= b <= m,
            0 <= m,
    ;
}

/// Asymmetric version of `lemma_mul_bound`.
pub proof fn lemma_mul_bound2(a: int, b: int, ma: int, mb: int)
    requires
        -ma <= a <= ma,
        -mb <= b <= mb,
        0 <= ma,
        0 <= mb,
    ensures
        -(ma * mb) <= a * b <= ma * mb,
{
    assert(-(ma * mb) <= a * b <= ma * mb) by (nonlinear_arith)
        requires
            -ma <= a <= ma,
            -mb <= b <= mb,
            0 <= ma,
            0 <= mb,
    ;
}

/// `p / q` rounded to the nearest integer, ties away from zero (`q > 0`).
pub open spec fn div_round_half_away(p: int, q: int) -> int {
    if p >= 0 {
        (2 * p + q) / (2 * q)
    } else {
        -((2 * (-p) + q) / (2 * q))
    }
}

pub fn div_round_half_away_e(p: i64, q: i64) -> (r: i64)
    requires
        0 < q <= 0x1000_0000_0000_0000,
        -0x1000_0000_0000_0000 <= p <= 0x1000_0000_0000_0000,
    ensures
        r as int == div_round_half_away(p as int, q as int),
{
    let den: u64 = (2 * q) as u64;
    if p >= 0 {
        let num: u64 = (2 * p + q) as u64;
        (num / den) as i64
    } else {
        let num: u64 = (2 * (-p) + q) as u64;
        -((num / den) as i64)
    }
}

pub fn div_round_half_away_e128(p: i128, q: i128) -> (r: i128)
    requires
        0 < q <= 0x4000_0000_0000_0000_0000_0000,
        -0x4000_0000_0000_0000_0000_0000 <= p <= 0x4000_0000_0000_0000_0000_0000,
    ensures
        r as int == div_round_half_away(p as int, q as int),
{
    let den: u128 = (2 * q) as u128;
    if p >= 0 {
        let num: u128 = (2 * p + q) as u128;
        (num / den) as i128
    } else {
        let num: u128 = (2 * (-p) + q) as u128;
        -((num / den) as i128)
    }
}

/// Clamps `v` into the closed interval `[lo, hi]`.
pub open spec fn clamp(v: int, lo: int, hi: int) -> int {
    if v < lo {
        lo
    } else if v > hi {
        hi
    } else {
        v
    }
}

/// Squared Euclidean distance between two points, in subunits squared.
pub open spec fn dist_sq(p: Pt, q: Pt) -> int {
    (q.x - p.x) * (q.x - p.x) + (q.y - p.y) * (q.y - p.y)
}

/// Cross product of the vectors `(ax, ay)` and `(bx, by)`.
pub open spec fn cross(ax: int, ay: int, bx: int, by: int) -> int {
    ax * by - ay * bx
}

/// Dot product of the vectors `(ax, ay)` and `(bx, by)`.
pub open spec fn dot(ax: int, ay: int, bx: int, by: int) -> int {
    ax * bx + ay * by
}

pub fn dist_sq_e(p: Pt, q: Pt) -> (r: i64)
    requires
        pt_in_range(p),
        pt_in_range(q),
    ensures
        r == dist_sq(p, q),
        0 <= r <= 0x200_0000_0000,
{
    let dx: i64 = q.x - p.x;
    let dy: i64 = q.y - p.y;
    proof {
        lemma_mul_bound(dx as int, dx as int, 0x10_0000);
        lemma_mul_bound(dy as int, dy as int, 0x10_0000);
        assert(dx * dx >= 0 && dy * dy >= 0) by (nonlinear_arith);
    }
    dx * dx + dy * dy
}

/// Cross product of the displacement vectors `p -> q` and `p -> r`:
/// positive when `r` lies to the left of the directed line `p -> q`.
pub open spec fn orient(p: Pt, q: Pt, r: Pt) -> int {
    cross(q.x - p.x, q.y - p.y, r.x - p.x, r.y - p.y)
}

/// The signed turn from an incoming direction to an outgoing one is
/// described by the pair `(c, d)` of their cross and dot products; the turn
/// angle is the angle of `(d, c)` from the positive axis, in `(-pi, pi]`.
/// A strictly positive turn (a left turn), including the half-turn.
pub open spec fn turn_is_left(c: int, d: int) -> bool {
    c > 0 || (c == 0 && d < 0)
}

/// A strictly negative turn (a right turn).
pub open spec fn turn_is_right(c: int, d: int) -> bool {
    c < 0
}

/// `|angle(c1, d1)| < |angle(c2, d2)|`, decided exactly: the magnitude of the
/// angle is strictly decreasing in its cosine `d / sqrt(c^2 + d^2)`, and the
/// cosines compare by sign and by the cross-multiplied squares, which reduce
/// to `|d1 * c2|` against `|d2 * c1|`.
pub open spec fn abs_turn_lt(c1: int, d1: int, c2: int, d2: int) -> bool {
    if d1 >= 0 && d2 < 0 {
        true
    } else if d1 < 0 && d2 >= 0 {
        false
    } else if d1 >= 0 {
        iabs(d1 * c2) > iabs(d2 * c1)
    } else {
        iabs(d1 * c2) < iabs(d2 * c1)
    }
}

/// `|angle(c1, d1)| == |angle(c2, d2)|`, decided exactly.
pub open spec fn abs_turn_eq(c1: int, d1: int, c2: int, d2: int) -> bool {
    if (d1 >= 0) == (d2 >= 0) {
        iabs(d1 * c2) == iabs(d2 * c1)
    } else {
        false
    }
}

pub fn abs_turn_lt_e(c1: i64, d1: i64, c2: i64, d2: i64) -> (r: bool)
    requires
        -0x4000_0000_0000 <= c1 <= 0x4000_0000_0000,
        -0x4000_0000_0000 <= d1 <= 0x4000_0000_0000,
        -0x4000_0000_0000 <= c2 <= 0x4000_0000_0000,
        -0x4000_0000_0000 <= d2 <= 0x4000_0000_0000,
    ensures
        r == abs_turn_lt(c1 as int, d1 as int, c2 as int, d2 as int),
{
    proof {
        lemma_mul_bound(d1 as int, c2 as int, 0x4000_0000_0000);
        lemma_mul_bound(d2 as int, c1 as int, 0x4000_0000_0000);
    }
    let x: i128 = (d1 as i128) * (c2 as i128);
    let y: i128 = (d2 as i128) * (c1 as i128);
    let ax: i128 = if x >= 0 {
        x
    } else {
        -x
    };
    let ay: i128 = if y >= 0 {
        y
    } else {
        -y
    };
    if d1 >= 0 && d2 < 0 {
        true
    } else if d1 < 0 && d2 >= 0 {
        false
    } else if d1 >= 0 {
        ax > ay
    } else {
        ax < ay
    }
}

pub fn abs_turn_eq_e(c1: i64, d1: i64, c2: i64, d2: i64) -> (r: bool)
    requires
        -0x4000_0000_0000 <= c1 <= 0x4000_0000_0000,
        -0x4000_0000_0000 <= d1 <= 0x4000_0000_0000,
        -0x4000_0000_0000 <= c2 <= 0x4000_0000_0000,
        -0x4000_0000_0000 <= d2 <= 0x4000_0000_0000,
    ensures
        r == abs_turn_eq(c1 as int, d1 as int, c2 as int, d2 as int),
{
    proof {
        lemma_mul_bound(d1 as int, c2 as int, 0x4000_0000_0000);
        lemma_mul_bound(d2 as int, c1 as int, 0x4000_0000_0000);
    }
    let x: i128 = (d1 as i128) * (c2 as i128);
    let y: i128 = (d2 as i128) * (c1 as i128);
    let ax: i128 = if x >= 0 {
        x
    } else {
        -x
    };
    let ay: i128 = if y >= 0 {
        y
    } else {
        -y
    };
    if (d1 >= 0) == (d2 >= 0) {
        ax == ay
    } else {
        false
    }
}

/// Quadrant of a nonzero direction vector, counter-clockwise from the
/// positive horizontal axis.
pub open spec fn quadrant(x: int, y: int) -> int {
    if x > 0 && y >= 0 {
        0
    } else if x <= 0 && y > 0 {
        1
    } else if x < 0 && y <= 0 {
        2
    } else {
        3
    }
}

/// Direction `(x1, y1)` comes strictly before `(x2, y2)` in the
/// counter-clockwise radial order from the positive horizontal axis:
/// earlier quadrant first, and within one quadrant the cross product
/// decides. This order is monotonic with the true direction angle.
pub open spec fn dir_lt(x1: int, y1: int, x2: int, y2: int) -> bool {
    let q1 = quadrant(x1, y1);
    let q2 = quadrant(x2, y2);
    q1 < q2 || (q1 == q2 && cross(x1, y1, x2, y2) > 0)
}

/// The radial order is asymmetric.
pub proof fn lemma_dir_lt_asymm(x1: int, y1: int, x2: int, y2: int)
    requires
        dir_lt(x1, y1, x2, y2),
    ensures
        !dir_lt(x2, y2, x1, y1),
{
    if quadrant(x1, y1) == quadrant(x2, y2) {
        assert(x2 * y1 - y2 * x1 == -(x1 * y2 - y1 * x2)) by (nonlinear_arith);
    }
}

/// The radial order is transitive on nonzero direction vectors.
pub proof fn lemma_dir_lt_trans(x1: int, y1: int, x2: int, y2: int, x3: int, y3: int)
    requires
        !(x1 == 0 && y1 == 0),
        !(x2 == 0 && y2 == 0),
        !(x3 == 0 && y3 == 0),
        dir_lt(x1, y1, x2, y2),
        dir_lt(x2, y2, x3, y3),
    ensures
        dir_lt(x1, y1, x3, y3),
{
    let q1 = quadrant(x1, y1);
    let q2 = quadrant(x2, y2);
    let q3 = quadrant(x3, y3);
    if q1 == q2 && q2 == q3 {
        let cab = cross(x1, y1, x2, y2);
        let cbc = cross(x2, y2, x3, y3);
        let cac = cross(x1, y1, x3, y3);
        // the three cross products are linked by a polynomial identity, in
        // both an `x`-weighted and a `y`-weighted form
        assert(x2 * cac == x1 * cbc + x3 * cab) by (nonlinear_arith)
            requires
                cab == x1 * y2 - y1 * x2,
                cbc == x2 * y3 - y2 * x3,
                cac == x1 * y3 - y1 * x3,
        ;
        assert(y2 * cac == y1 * cbc + y3 * cab) by (nonlinear_arith)
            requires
                cab == x1 * y2 - y1 * x2,
                cbc == x2 * y3 - y2 * x3,
                cac == x1 * y3 - y1 * x3,
        ;
        if q1 == 0 {
            assert(x1 > 0 && x2 > 0 && x3 > 0);
            assert(cac > 0) by (nonlinear_arith)
                requires
                    x2 * cac == x1 * cbc + x3 * cab,
                    x1 > 0,
                    x2 > 0,
                    x3 > 0,
                    cab > 0,
                    cbc > 0,
            ;
        } else if q1 == 1 {
            assert(y1 > 0 && y2 > 0 && y3 > 0);
            assert(cac > 0) by (nonlinear_arith)
                requires
                    y2 * cac == y1 * cbc + y3 * cab,
                    y1 > 0,
                    y2 > 0,
                    y3 > 0,
                    cab > 0,
                    cbc > 0,
            ;
        } else if q1 == 2 {
            assert(x1 < 0 && x2 < 0 && x3 < 0);
            assert(cac > 0) by (nonlinear_arith)
                requires
                    x2 * cac == x1 * cbc + x3 * cab,
                    x1 < 0,
                    x2 < 0,
                    x3 < 0,
                    cab > 0,
                    cbc > 0,
            ;
        } else {
            assert(y1 < 0 && y2 < 0 && y3 < 0);
            assert(cac > 0) by (nonlinear_arith)
                requires
                    y2 * cac == y1 * cbc + y3 * cab,
                    y1 < 0,
                    y2 < 0,
                    y3 < 0,
                    cab > 0,
                    cbc > 0,
            ;
        }
    }
}

pub fn dir_lt_e(x1: i64, y1: i64, x2: i64, y2: i64) -> (r: bool)
    requires
        -0x4000_0000_0000 <= x1 <= 0x4000_0000_0000,
        -0x4000_0000_0000 <= y1 <= 0x4000_0000_0000,
        -0x4000_0000_0000 <= x2 <= 0x4000_0000_0000,
        -0x4000_0000_0000 <= y2 <= 0x4000_0000_0000,
    ensures
        r == dir_lt(x1 as int, y1 as int, x2 as int, y2 as int),
{
    let q1: u8 = if x1 > 0 && y1 >= 0 {
        0
    } else if x1 <= 0 && y1 > 0 {
        1
    } else if x1 < 0 && y1 <= 0 {
        2
    } else {
        3
    };
    let q2: u8 = if x2 > 0 && y2 >= 0 {
        0
    } else if x2 <= 0 && y2 > 0 {
        1
    } else if x2 < 0 && y2 <= 0 {
        2
    } else {
        3
    };
    if q1 != q2 {
        q1 < q2
    } else {
        proof {
            lemma_mul_bound(x1 as int, y2 as int, 0x4000_0000_0000);
            lemma_mul_bound(y1 as int, x2 as int, 0x4000_0000_0000);
        }
        let c: i128 = (x1 as i128) * (y2 as i128) - (y1 as i128) * (x2 as i128);
        c > 0
    }
}

pub fn orient_e(p: Pt, q: Pt, r: Pt) -> (c: i64)
    requires
        pt_in_range(p),
        pt_in_range(q),
        pt_in_range(r),
    ensures
        c == orient(p, q, r),
{
    let ax: i64 = q.x - p.x;
    let ay: i64 = q.y - p.y;
    let bx: i64 = r.x - p.x;
    let by: i64 = r.y - p.y;
    proof {
        lemma_mul_bound(ax as int, by as int, 0x10_0000);
        lemma_mul_bound(ay as int, bx as int, 0x10_0000);
    }
    ax * by - ay * bx
}

} // verus!
