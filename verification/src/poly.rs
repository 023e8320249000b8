//! Exact polygon and segment computations: shoelace area, even-odd point
//! containment, pairwise segment intersection, and the clamped point-to-
//! segment distance used to pick a fill seed.

use vstd::prelude::*;

use crate::geom::clamp;
use crate::geom::cross;
use crate::geom::dist_sq;
use crate::geom::div_round_half_away;
use crate::geom::div_round_half_away_e128;
use crate::geom::dot;
use crate::geom::iabs;
use crate::geom::lemma_mul_bound;
use crate::geom::lemma_mul_bound2;
use crate::geom::line_in_range;
use crate::geom::pt_in_range;
use crate::geom::LineSeg;
use crate::geom::Pt;
use crate::geom::COORD_LIMIT;

verus! {

pub open spec fn ring_in_range(ring: Seq<Pt>) -> bool {
    forall|i: int| 0 <= i < ring.len() ==> pt_in_range(#[trigger] ring[i])
}

/// The shoelace term of vertex `i`: the cross product of vertex `i` and its
/// cyclic successor.
pub open spec fn area_term(ring: Seq<Pt>, i: int) -> int {
    let p = ring[i];
    let q = ring[if i + 1 == ring.len() {
        0int
    } else {
        i + 1
    }];
    p.x * q.y - q.x * p.y
}

pub open spec fn area2x_upto(ring: Seq<Pt>, k: int) -> int
    decreases k,
{
    if k <= 0 {
        0
    } else {
        area2x_upto(ring, k - 1) + area_term(ring, k - 1)
    }
}

/// Twice the signed area of the closed ring (positive for counter-clockwise
/// winding); zero for fewer than three vertices.
pub open spec fn area2x(ring: Seq<Pt>) -> int {
    if ring.len() < 3 {
        0
    } else {
        area2x_upto(ring, ring.len() as int)
    }
}

/// Twice the signed area, computed exactly.
pub fn area2x_e(ring: &Vec<Pt>) -> (r: i128)
    requires
        ring_in_range(ring@),
    ensures
        r as int == area2x(ring@),
        -0x4_0000_0000_0000_0000_0000_0000_0000 <= r <= 0x4_0000_0000_0000_0000_0000_0000_0000,
{
    if ring.len() < 3 {
        return 0;
    }
    let n = ring.len();
    proof {
        assert((n as int) * 0x4_0000_0000_0000 <= 0x4_0000_0000_0000_0000_0000_0000_0000)
            by (nonlinear_arith)
            requires n <= 0xffff_ffff_ffff_ffff;
    }
    let mut acc: i128 = 0;
    let mut i: usize = 0;
    while i < n
        invariant
            ring_in_range(ring@),
            n == ring@.len(),
            3 <= n,
            i <= n,
            acc as int == area2x_upto(ring@, i as int),
            -(i as int) * 0x4_0000_0000_0000 <= acc as int <= (i as int) * 0x4_0000_0000_0000,
        decreases n - i,
    {
        let p = ring[i];
        let q = if i + 1 == n {
            ring[0]
        } else {
            ring[i + 1]
        };
        proof {
            lemma_mul_bound(p.x as int, q.y as int, 0x8_0000);
            lemma_mul_bound(q.x as int, p.y as int, 0x8_0000);
            lemma_mul_bound2(i as int + 1, 0x4_0000_0000_0000, 0xffff_ffff_ffff_ffff, 0x4_0000_0000_0000);
            lemma_mul_bound2(i as int, 0x4_0000_0000_0000, 0xffff_ffff_ffff_ffff, 0x4_0000_0000_0000);
        }
        let term: i128 = (p.x as i128) * (q.y as i128) - (q.x as i128) * (p.y as i128);
        acc = acc + term;
        i += 1;
        proof {
            assert((i as int) * 0x4_0000_0000_0000 == (i as int - 1) * 0x4_0000_0000_0000
                + 0x4_0000_0000_0000) by (nonlinear_arith);
        }
    }
    acc
}

/// Some vertex of the ring coincides exactly with `p`.
pub open spec fn vertex_hit(p: Pt, ring: Seq<Pt>) -> bool {
    exists|i: int| 0 <= i < ring.len() && ring[i] == p
}

/// The edge `a -> b` crosses the horizontal ray going right from `p`.
pub open spec fn edge_crosses(p: Pt, a: Pt, b: Pt) -> bool {
    &&& ((a.y > p.y) != (b.y > p.y))
    &&& (if b.y > a.y {
        (p.x - a.x) * (b.y - a.y) < (b.x - a.x) * (p.y - a.y)
    } else {
        (p.x - a.x) * (b.y - a.y) > (b.x - a.x) * (p.y - a.y)
    })
}

/// Cyclic predecessor of vertex `i`.
pub open spec fn ring_prev(ring: Seq<Pt>, i: int) -> int {
    if i == 0 {
        ring.len() - 1
    } else {
        i - 1
    }
}

pub open spec fn crossings_upto(p: Pt, ring: Seq<Pt>, k: int) -> nat
    decreases k,
{
    if k <= 0 {
        0
    } else {
        crossings_upto(p, ring, k - 1) + (if edge_crosses(p, ring[ring_prev(ring, k - 1)], ring[k
            - 1]) {
            1nat
        } else {
            0nat
        })
    }
}

/// Even-odd containment with exact arithmetic: a point equal to some vertex
/// counts as on the boundary, never as inside.
pub open spec fn point_in_poly(p: Pt, ring: Seq<Pt>) -> bool {
    &&& ring.len() >= 3
    &&& !vertex_hit(p, ring)
    &&& crossings_upto(p, ring, ring.len() as int) % 2 == 1
}

fn edge_crosses_e(p: Pt, a: Pt, b: Pt) -> (r: bool)
    requires
        pt_in_range(p),
        pt_in_range(a),
        pt_in_range(b),
    ensures
        r == edge_crosses(p, a, b),
{
    if (a.y > p.y) == (b.y > p.y) {
        return false;
    }
    proof {
        lemma_mul_bound(p.x - a.x, b.y - a.y, 0x10_0000);
        lemma_mul_bound(b.x - a.x, p.y - a.y, 0x10_0000);
    }
    let lhs: i64 = (p.x - a.x) * (b.y - a.y);
    let rhs: i64 = (b.x - a.x) * (p.y - a.y);
    if b.y > a.y {
        lhs < rhs
    } else {
        lhs > rhs
    }
}

/// Even-odd point-in-polygon test.
pub fn point_in_poly_e(p: Pt, ring: &Vec<Pt>) -> (r: bool)
    requires
        pt_in_range(p),
        ring_in_range(ring@),
    ensures
        r == point_in_poly(p, ring@),
{
    let n = ring.len();
    if n < 3 {
        return false;
    }
    let mut crossings: usize = 0;
    let mut i: usize = 0;
    while i < n
        invariant
            pt_in_range(p),
            ring_in_range(ring@),
            n == ring@.len(),
            3 <= n,
            i <= n,
            crossings as int <= i as int,
            crossings as nat == crossings_upto(p, ring@, i as int),
            forall|j: int| 0 <= j < i ==> ring@[j] != p,
        decreases n - i,
    {
        let a = if i == 0 {
            ring[n - 1]
        } else {
            ring[i - 1]
        };
        let b = ring[i];
        if b.x == p.x && b.y == p.y {
            return false;
        }
        if edge_crosses_e(p, a, b) {
            crossings += 1;
        }
        i += 1;
    }
    crossings % 2 == 1
}

/// An exactly-computed strictly interior crossing of two segments: the
/// parameter of the crossing along each line as a fraction over the common
/// positive denominator, and the crossing point rounded to the nearest
/// subunit.
#[derive(Clone, Copy, PartialEq, Eq, Structural, Debug)]
pub struct Crossing {
    pub t1_num: i64,
    pub t2_num: i64,
    pub den: i64,
    pub p: Pt,
}

pub open spec fn inter_den(l1: LineSeg, l2: LineSeg) -> int {
    (l1.a.x - l1.b.x) * (l2.a.y - l2.b.y) - (l1.a.y - l1.b.y) * (l2.a.x - l2.b.x)
}

pub open spec fn inter_t_num(l1: LineSeg, l2: LineSeg) -> int {
    (l1.a.x - l2.a.x) * (l2.a.y - l2.b.y) - (l1.a.y - l2.a.y) * (l2.a.x - l2.b.x)
}

pub open spec fn inter_u_num(l1: LineSeg, l2: LineSeg) -> int {
    -((l1.a.x - l1.b.x) * (l1.a.y - l2.a.y) - (l1.a.y - l1.b.y) * (l1.a.x - l2.a.x))
}

/// Denominator and parameters with the denominator's sign normalized to be
/// positive.
pub open spec fn inter_den_pos(l1: LineSeg, l2: LineSeg) -> int {
    iabs(inter_den(l1, l2))
}

pub open spec fn inter_t_pos(l1: LineSeg, l2: LineSeg) -> int {
    if inter_den(l1, l2) >= 0 {
        inter_t_num(l1, l2)
    } else {
        -inter_t_num(l1, l2)
    }
}

pub open spec fn inter_u_pos(l1: LineSeg, l2: LineSeg) -> int {
    if inter_den(l1, l2) >= 0 {
        inter_u_num(l1, l2)
    } else {
        -inter_u_num(l1, l2)
    }
}

/// The two segments cross strictly inside both: parallel (or nearly so, which
/// with exact arithmetic means a zero determinant) pairs do not cross, and a
/// crossing at an endpoint of either segment does not count.
pub open spec fn strict_interior_crossing(l1: LineSeg, l2: LineSeg) -> bool {
    &&& inter_den(l1, l2) != 0
    &&& 0 < inter_t_pos(l1, l2) < inter_den_pos(l1, l2)
    &&& 0 < inter_u_pos(l1, l2) < inter_den_pos(l1, l2)
}

/// One coordinate of the crossing point: the exact rational coordinate
/// rounded to the nearest subunit and kept within the segment's own span.
pub open spec fn inter_coord(a: int, b: int, tn: int, dn: int) -> int {
    let lo = if a <= b {
        a
    } else {
        b
    };
    let hi = if a <= b {
        b
    } else {
        a
    };
    clamp(div_round_half_away(a * dn + tn * (b - a), dn), lo, hi)
}

pub open spec fn inter_point(l1: LineSeg, l2: LineSeg) -> Pt {
    let dn = inter_den_pos(l1, l2);
    let tn = inter_t_pos(l1, l2);
    Pt {
        x: inter_coord(l1.a.x as int, l1.b.x as int, tn, dn) as i64,
        y: inter_coord(l1.a.y as int, l1.b.y as int, tn, dn) as i64,
    }
}

fn inter_coord_e(a: i64, b: i64, tn: i64, dn: i64) -> (r: i64)
    requires
        -COORD_LIMIT <= a <= COORD_LIMIT,
        -COORD_LIMIT <= b <= COORD_LIMIT,
        0 < dn <= 0x4000_0000_0000,
        0 <= tn <= dn,
    ensures
        r as int == inter_coord(a as int, b as int, tn as int, dn as int),
        -COORD_LIMIT <= r <= COORD_LIMIT,
{
    let lo = if a <= b {
        a
    } else {
        b
    };
    let hi = if a <= b {
        b
    } else {
        a
    };
    proof {
        lemma_mul_bound2(a as int, dn as int, 0x8_0000, 0x4000_0000_0000);
        lemma_mul_bound2(tn as int, (b - a) as int, 0x4000_0000_0000, 0x10_0000);
    }
    let num: i128 = (a as i128) * (dn as i128) + (tn as i128) * ((b - a) as i128);
    let v = div_round_half_away_e128(num, dn as i128);
    let r: i128 = if v < lo as i128 {
        lo as i128
    } else if v > hi as i128 {
        hi as i128
    } else {
        v
    };
    r as i64
}

/// The strictly interior crossing of two segments, if there is one.
pub fn line_intersection(l1: &LineSeg, l2: &LineSeg) -> (r: Option<Crossing>)
    requires
        line_in_range(*l1),
        line_in_range(*l2),
    ensures
        r is Some <==> strict_interior_crossing(*l1, *l2),
        r is Some ==> ({
            let c = r->Some_0;
            &&& c.den as int == inter_den_pos(*l1, *l2)
            &&& c.t1_num as int == inter_t_pos(*l1, *l2)
            &&& c.t2_num as int == inter_u_pos(*l1, *l2)
            &&& 0 < c.t1_num < c.den
            &&& 0 < c.t2_num < c.den
            &&& c.p == inter_point(*l1, *l2)
            &&& pt_in_range(c.p)
        }),
{
    proof {
        lemma_mul_bound(l1.a.x - l1.b.x, l2.a.y - l2.b.y, 0x10_0000);
        lemma_mul_bound(l1.a.y - l1.b.y, l2.a.x - l2.b.x, 0x10_0000);
        lemma_mul_bound(l1.a.x - l2.a.x, l2.a.y - l2.b.y, 0x10_0000);
        lemma_mul_bound(l1.a.y - l2.a.y, l2.a.x - l2.b.x, 0x10_0000);
        lemma_mul_bound(l1.a.x - l1.b.x, l1.a.y - l2.a.y, 0x10_0000);
        lemma_mul_bound(l1.a.y - l1.b.y, l1.a.x - l2.a.x, 0x10_0000);
    }
    let den: i64 = (l1.a.x - l1.b.x) * (l2.a.y - l2.b.y) - (l1.a.y - l1.b.y) * (l2.a.x - l2.b.x);
    if den == 0 {
        return None;
    }
    let tn0: i64 = (l1.a.x - l2.a.x) * (l2.a.y - l2.b.y) - (l1.a.y - l2.a.y) * (l2.a.x - l2.b.x);
    let un0: i64 = -((l1.a.x - l1.b.x) * (l1.a.y - l2.a.y) - (l1.a.y - l1.b.y) * (l1.a.x
        - l2.a.x));
    let (dn, tn, un) = if den > 0 {
        (den, tn0, un0)
    } else {
        (-den, -tn0, -un0)
    };
    if !(0 < tn && tn < dn && 0 < un && un < dn) {
        return None;
    }
    let px = inter_coord_e(l1.a.x, l1.b.x, tn, dn);
    let py = inter_coord_e(l1.a.y, l1.b.y, tn, dn);
    Some(Crossing { t1_num: tn, t2_num: un, den: dn, p: Pt { x: px, y: py } })
}

/// `n1 / d1 < n2 / d2` for positive denominators.
pub open spec fn frac_lt(n1: int, d1: int, n2: int, d2: int) -> bool {
    n1 * d2 < n2 * d1
}

/// Exact comparison of two fractions with positive denominators bounded as
/// the arrangement's parameters are.
pub fn frac_lt_e(n1: i64, d1: i64, n2: i64, d2: i64) -> (r: bool)
    requires
        0 < d1,
        0 < d2,
    ensures
        r == frac_lt(n1 as int, d1 as int, n2 as int, d2 as int),
{
    proof {
        lemma_mul_bound2(
            n1 as int,
            d2 as int,
            0x8000_0000_0000_0000,
            0x8000_0000_0000_0000,
        );
        lemma_mul_bound2(
            n2 as int,
            d1 as int,
            0x8000_0000_0000_0000,
            0x8000_0000_0000_0000,
        );
    }
    (n1 as i128) * (d2 as i128) < (n2 as i128) * (d1 as i128)
}

/// The squared distance from `p` to segment `a..b`, clamped to the segment,
/// as an exact non-negative fraction `(numerator, positive denominator)`:
/// the squared distance to whichever is nearest of the two endpoints (when
/// the perpendicular foot falls outside the segment) or the foot itself
/// (the interior case, where the distance is `cross^2 / |ab|^2` by the
/// Lagrange identity).
pub open spec fn seg_dist_frac(p: Pt, a: Pt, b: Pt) -> (int, int) {
    let ab2 = dist_sq(a, b);
    let t = dot(p.x - a.x, p.y - a.y, b.x - a.x, b.y - a.y);
    if ab2 == 0 {
        (dist_sq(p, a), 1)
    } else if t <= 0 {
        (dist_sq(p, a), 1)
    } else if t >= ab2 {
        (dist_sq(p, b), 1)
    } else {
        let cr = cross(p.x - a.x, p.y - a.y, b.x - a.x, b.y - a.y);
        (cr * cr, ab2)
    }
}



/// The squared distance fraction, computed exactly.
pub fn seg_dist_frac_e(p: Pt, a: Pt, b: Pt) -> (r: (i128, i64))
    requires
        pt_in_range(p),
        pt_in_range(a),
        pt_in_range(b),
    ensures
        (r.0 as int, r.1 as int) == seg_dist_frac(p, a, b),
        0 <= r.0,
        0 < r.1 <= 0x200_0000_0000,
        r.0 <= 0x4_0000_0000_0000_0000_0000,
{
    let ab2 = crate::geom::dist_sq_e(a, b);
    proof {
        lemma_mul_bound(p.x - a.x, b.x - a.x, 0x10_0000);
        lemma_mul_bound(p.y - a.y, b.y - a.y, 0x10_0000);
    }
    let t: i64 = (p.x - a.x) * (b.x - a.x) + (p.y - a.y) * (b.y - a.y);
    if ab2 == 0 {
        (crate::geom::dist_sq_e(p, a) as i128, 1)
    } else if t <= 0 {
        (crate::geom::dist_sq_e(p, a) as i128, 1)
    } else if t >= ab2 {
        (crate::geom::dist_sq_e(p, b) as i128, 1)
    } else {
        proof {
            lemma_mul_bound(p.x - a.x, b.y - a.y, 0x10_0000);
            lemma_mul_bound(p.y - a.y, b.x - a.x, 0x10_0000);
        }
        let cr: i64 = (p.x - a.x) * (b.y - a.y) - (p.y - a.y) * (b.x - a.x);
        proof {
            lemma_mul_bound(cr as int, cr as int, 0x200_0000_0000);
            assert(cr as int * cr as int >= 0) by (nonlinear_arith);
        }
        ((cr as i128) * (cr as i128), ab2)
    }
}

} // verus!
