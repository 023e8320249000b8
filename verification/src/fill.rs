//! Fill selection: a dual boundary trace around the seed segment nearest to
//! the indicated origin, geometric validation of the candidate rings, and
//! the choice of the best (innermost) face.

use vstd::prelude::*;

use crate::arrange::Arrangement;
use crate::arrange::ArrViews;
use crate::geom::iabs;
use crate::geom::pt_in_range;
use crate::geom::Pt;
use crate::poly::area2x;
use crate::poly::point_in_poly;
use crate::poly::ring_in_range;
use crate::trace::trace_face_side;
use crate::trace::FailReason;
use crate::trace::SideRule;
use crate::trace::TraceResult;

verus! {

/// Radius within which the tracer may bridge gaps, in subunits (twelve
/// drawing units).
pub const GAP_RADIUS: i64 = 12 * 1024;

/// Twice the minimum face area, in subunits squared (fifty square drawing
/// units): a candidate ring is accepted only with `|2A|` strictly above it.
pub const MIN_AREA_2X: i128 = 104_857_600;

/// A persisted fill: an ordered point ring (first equals last) and a color.
pub struct Polygon {
    pub points: Vec<Pt>,
    pub color: u32,
}

impl Polygon {
    pub fn new() -> (r: Polygon)
        ensures
            r.points@.len() == 0,
            r.color == crate::color::DEFAULT_COLOR_RGBA,
    {
        Polygon { points: Vec::new(), color: crate::color::DEFAULT_COLOR_RGBA }
    }

    pub fn push(&mut self, x: i64, y: i64)
        ensures
            final(self).points@ == old(self).points@.push(Pt { x, y }),
            final(self).color == old(self).color,
    {
        self.points.push(Pt { x, y });
    }

    /// A ring of more than two points counts as closed.
    pub fn is_closed(&self) -> (r: bool)
        ensures
            r == (self.points@.len() > 2),
    {
        self.points.len() > 2
    }

    pub fn with_color(self, color: u32) -> (r: Polygon)
        ensures
            r.points@ == self.points@,
            r.color == color,
    {
        Polygon { points: self.points, color }
    }

    /// Copies the ring point by point.
    pub fn duplicate(&self) -> (r: Polygon)
        ensures
            r.points@ == self.points@,
            r.color == self.color,
    {
        let mut points: Vec<Pt> = Vec::new();
        let n = self.points.len();
        let mut i: usize = 0;
        while i < n
            invariant
                n == self.points@.len(),
                i <= n,
                points@ == self.points@.take(i as int),
            decreases n - i,
        {
            points.push(self.points[i]);
            i += 1;
            proof {
                assert(self.points@.take(i as int) =~= self.points@.take(i as int - 1).push(
                    self.points@[i - 1],
                ));
            }
        }
        proof {
            assert(self.points@.take(n as int) =~= self.points@);
        }
        Polygon { points, color: self.color }
    }
}

/// The outcome of a fill request: a polygon, or the reason none was made.
pub enum FillOutcome {
    Filled(Polygon),
    NoFill(FailReason),
}

/// A segment may seed a fill only if both its endpoints have raw degree at
/// least two (never seed from a dangling edge).
pub open spec fn seed_ok(arr: Arrangement, i: int) -> bool {
    &&& 0 <= i < arr.segments@.len()
    &&& arr.degree@[arr.segments@[i].a as int] >= 2
    &&& arr.degree@[arr.segments@[i].b as int] >= 2
}

/// Some segment of the arrangement built from `lines` could seed a fill:
/// both its endpoints have degree at least two.
pub open spec fn seed_at(lines: Seq<crate::geom::LineSeg>, i: int) -> bool {
    let segs = crate::arrange::built_segments(lines);
    let deg = crate::arrange::built_degree(lines);
    &&& 0 <= i < segs.len()
    &&& deg[segs[i].a as int] >= 2
    &&& deg[segs[i].b as int] >= 2
}

pub open spec fn seed_exists(lines: Seq<crate::geom::LineSeg>) -> bool {
    exists|i: int| seed_at(lines, i)
}


/// The state of the seed scan: whether a valid seed was found, its index,
/// and its squared distance to the origin as an exact fraction.
pub struct SeedScan {
    pub have: bool,
    pub best_i: int,
    pub num: int,
    pub den: int,
}

/// The scan for the valid seed segment nearest the origin: a segment whose
/// endpoints both have degree at least two replaces the current best only
/// when its clamped squared distance is strictly smaller, so the earliest
/// of equals wins.
pub open spec fn seed_scan(arr: ArrViews, origin: Pt, i: int, st: SeedScan) -> SeedScan
    decreases arr.segments.len() - i when 0 <= i <= arr.segments.len()
{
    if i >= arr.segments.len() {
        st
    } else {
        let sg = arr.segments[i];
        let st1 = if arr.degree[sg.a as int] >= 2 && arr.degree[sg.b as int] >= 2 {
            let f = crate::poly::seg_dist_frac(
                origin,
                arr.nodes[sg.a as int],
                arr.nodes[sg.b as int],
            );
            if !st.have {
                SeedScan { have: true, best_i: i, num: f.0, den: f.1 }
            } else if f.0 * st.den < st.num * f.1 {
                SeedScan { have: true, best_i: i, num: f.0, den: f.1 }
            } else {
                st
            }
        } else {
            st
        };
        seed_scan(arr, origin, i + 1, st1)
    }
}

/// The outcome of a fill request, at the specification level.
pub struct FillModel {
    pub is_filled: bool,
    pub points: Seq<Pt>,
    pub reason: Option<FailReason>,
}

/// The whole fill selection as a function of its inputs: the nearest valid
/// seed, a handedness per direction from the sign of the cross product with
/// the origin, one model walk per direction, validation of both rings, and
/// the smaller ring when both qualify.
pub open spec fn fill_model(arr: ArrViews, origin: Pt, gap_radius: int) -> FillModel {
    let st = seed_scan(arr, origin, 0, SeedScan { have: false, best_i: 0, num: 0, den: 1 });
    if !st.have {
        FillModel { is_filled: false, points: Seq::empty(), reason: Some(FailReason::DeadEnd) }
    } else {
        let sg = arr.segments[st.best_i];
        let pa = arr.nodes[sg.a as int];
        let pb = arr.nodes[sg.b as int];
        let side_ab = if crate::geom::orient(pa, pb, origin) > 0 {
            SideRule::KeepLeft
        } else {
            SideRule::KeepRight
        };
        let side_ba = if crate::geom::orient(pb, pa, origin) > 0 {
            SideRule::KeepLeft
        } else {
            SideRule::KeepRight
        };
        let t_ab = crate::trace::trace_model(arr, sg.a, sg.b, side_ab, origin, gap_radius);
        let t_ba = crate::trace::trace_model(arr, sg.b, sg.a, side_ba, origin, gap_radius);
        let v_ab = candidate_valid(t_ab.closed, t_ab.points, origin);
        let v_ba = candidate_valid(t_ba.closed, t_ba.points, origin);
        if v_ab && v_ba {
            if iabs(area2x(t_ba.points)) <= iabs(area2x(t_ab.points)) {
                FillModel { is_filled: true, points: t_ba.points, reason: None }
            } else {
                FillModel { is_filled: true, points: t_ab.points, reason: None }
            }
        } else if v_ab {
            FillModel { is_filled: true, points: t_ab.points, reason: None }
        } else if v_ba {
            FillModel { is_filled: true, points: t_ba.points, reason: None }
        } else {
            FillModel { is_filled: false, points: Seq::empty(), reason: Some(FailReason::NoClosure) }
        }
    }
}

/// A candidate ring passes validation: closed with at least three points,
/// unsigned area strictly above the minimum, and the origin strictly inside
/// under the even-odd rule.
pub open spec fn candidate_valid(t_closed: bool, pts: Seq<Pt>, origin: Pt) -> bool {
    &&& t_closed
    &&& pts.len() >= 3
    &&& iabs(area2x(pts)) > MIN_AREA_2X
    &&& point_in_poly(origin, pts)
}

fn validate_candidate(t: &TraceResult, origin: Pt) -> (r: bool)
    requires
        pt_in_range(origin),
        t.closed ==> ring_in_range(t.points@),
    ensures
        r == candidate_valid(t.closed, t.points@, origin),
{
    if !t.closed {
        return false;
    }
    if t.points.len() < 3 {
        return false;
    }
    let a2 = crate::poly::area2x_e(&t.points);
    let abs_a2: i128 = if a2 >= 0 {
        a2
    } else {
        -a2
    };
    if abs_a2 <= MIN_AREA_2X {
        return false;
    }
    crate::poly::point_in_poly_e(origin, &t.points)
}

/// Runs the fill selection at `origin` on a built arrangement.
///
/// There is no seed segment exactly when no segment has both endpoints of
/// degree at least two, and then no fill is made with a dead-end reason. A
/// produced polygon is a closed ring (first point equals last), its
/// unsigned doubled area strictly exceeds the minimum, and `origin` lies
/// strictly inside it by the even-odd rule.
#[verifier::rlimit(100)]
pub fn fill_at(arr: &Arrangement, origin: Pt, color: u32) -> (r: FillOutcome)
    requires
        crate::arrange::arr_wf(*arr),
        pt_in_range(origin),
        arr.segments@.len() < 0x4000_0000,
    ensures
        ({
            let m = fill_model(crate::arrange::views_of(*arr), origin, GAP_RADIUS as int);
            &&& (r is Filled) == m.is_filled
            &&& r is Filled ==> r->Filled_0.points@ == m.points
            &&& r is NoFill ==> Some(r->NoFill_0) == m.reason
        }),
        (r is NoFill && r->NoFill_0 == FailReason::DeadEnd) <==> !(exists|i: int|
            seed_ok(*arr, i)),
        r is Filled ==> ({
            let p = r->Filled_0;
            &&& p.points@.len() >= 3
            &&& p.points@[0] == p.points@[p.points@.len() - 1]
            &&& ring_in_range(p.points@)
            &&& iabs(area2x(p.points@)) > MIN_AREA_2X
            &&& point_in_poly(origin, p.points@)
            &&& p.color == color
        }),
{
    let n_segs = arr.segments.len();
    let ghost scan0 = SeedScan { have: false, best_i: 0, num: 0, den: 1 };
    // pick the valid seed segment nearest to the origin
    let mut have_seed = false;
    let mut best_i: usize = 0;
    let mut best_num: i128 = 0;
    let mut best_den: i64 = 1;
    let mut i: usize = 0;
    while i < n_segs
        invariant
            crate::arrange::arr_wf(*arr),
            pt_in_range(origin),
            n_segs == arr.segments@.len(),
            i <= n_segs,
            scan0 == (SeedScan { have: false, best_i: 0, num: 0, den: 1 }),
            seed_scan(
                crate::arrange::views_of(*arr),
                origin,
                i as int,
                SeedScan {
                    have: have_seed,
                    best_i: best_i as int,
                    num: best_num as int,
                    den: best_den as int,
                },
            ) == seed_scan(crate::arrange::views_of(*arr), origin, 0, scan0),
            !have_seed ==> best_i == 0 && best_num == 0 && best_den == 1,
            !have_seed ==> forall|j: int| 0 <= j < i ==> !seed_ok(*arr, j),
            have_seed ==> seed_ok(*arr, best_i as int),
            have_seed ==> 0 < best_den <= 0x200_0000_0000,
            have_seed ==> 0 <= best_num <= 0x4_0000_0000_0000_0000_0000,
        decreases n_segs - i,
    {
        let sg = arr.segments[i];
        let deg_a = arr.degree[sg.a];
        let deg_b = arr.degree[sg.b];
        if deg_a >= 2 && deg_b >= 2 {
            let pa = arr.nodes[sg.a];
            let pb = arr.nodes[sg.b];
            let frac = crate::poly::seg_dist_frac_e(origin, pa, pb);
            if !have_seed {
                have_seed = true;
                best_i = i;
                best_num = frac.0;
                best_den = frac.1;
            } else {
                proof {
                    crate::geom::lemma_mul_bound2(
                        frac.0 as int,
                        best_den as int,
                        0x4_0000_0000_0000_0000_0000,
                        0x200_0000_0000,
                    );
                    crate::geom::lemma_mul_bound2(
                        best_num as int,
                        frac.1 as int,
                        0x4_0000_0000_0000_0000_0000,
                        0x200_0000_0000,
                    );
                }
                if frac.0 * (best_den as i128) < best_num * (frac.1 as i128) {
                    best_i = i;
                    best_num = frac.0;
                    best_den = frac.1;
                }
            }
        }
        i += 1;
    }
    let ghost st = seed_scan(crate::arrange::views_of(*arr), origin, 0, scan0);
    proof {
        assert(st == (SeedScan {
            have: have_seed,
            best_i: best_i as int,
            num: best_num as int,
            den: best_den as int,
        }));
    }
    if !have_seed {
        proof {
            let m = fill_model(crate::arrange::views_of(*arr), origin, GAP_RADIUS as int);
            assert(!m.is_filled && m.reason == Some(FailReason::DeadEnd));
        }
        return FillOutcome::NoFill(FailReason::DeadEnd);
    }
    let seed = arr.segments[best_i];
    let node_a = seed.a;
    let node_b = seed.b;
    let pa = arr.nodes[node_a];
    let pb = arr.nodes[node_b];
    // the origin's side of each direction decides the handedness
    let cross_ab = crate::geom::orient_e(pa, pb, origin);
    let cross_ba = crate::geom::orient_e(pb, pa, origin);
    let side_ab = if cross_ab > 0 {
        SideRule::KeepLeft
    } else {
        SideRule::KeepRight
    };
    let side_ba = if cross_ba > 0 {
        SideRule::KeepLeft
    } else {
        SideRule::KeepRight
    };
    let result_ab = trace_face_side(arr, node_a, node_b, side_ab, origin, GAP_RADIUS);
    let result_ba = trace_face_side(arr, node_b, node_a, side_ba, origin, GAP_RADIUS);
    let valid_ab = validate_candidate(&result_ab, origin);
    let valid_ba = validate_candidate(&result_ba, origin);
    proof {
        let sg = arr.segments@[st.best_i];
        assert(seed == sg);
        let pa_s = arr.nodes@[sg.a as int];
        let pb_s = arr.nodes@[sg.b as int];
        assert(cross_ab as int == crate::geom::orient(pa_s, pb_s, origin));
        assert(cross_ba as int == crate::geom::orient(pb_s, pa_s, origin));
        let t_ab = crate::trace::trace_model(crate::arrange::views_of(*arr), sg.a, sg.b, side_ab, origin, GAP_RADIUS as int);
        let t_ba = crate::trace::trace_model(crate::arrange::views_of(*arr), sg.b, sg.a, side_ba, origin, GAP_RADIUS as int);
        assert(result_ab.points@ == t_ab.points && result_ab.closed == t_ab.closed);
        assert(result_ba.points@ == t_ba.points && result_ba.closed == t_ba.closed);
        assert(valid_ab == candidate_valid(t_ab.closed, t_ab.points, origin));
        assert(valid_ba == candidate_valid(t_ba.closed, t_ba.points, origin));
    }
    let ghost m = fill_model(crate::arrange::views_of(*arr), origin, GAP_RADIUS as int);
    let selected: &TraceResult = if valid_ab && valid_ba {
        // both faces qualify: keep the smaller (innermost) one
        let a2_ab = crate::poly::area2x_e(&result_ab.points);
        let a2_ba = crate::poly::area2x_e(&result_ba.points);
        let abs_ab: i128 = if a2_ab >= 0 {
            a2_ab
        } else {
            -a2_ab
        };
        let abs_ba: i128 = if a2_ba >= 0 {
            a2_ba
        } else {
            -a2_ba
        };
        proof {
            assert(abs_ab as int == iabs(area2x(result_ab.points@)));
            assert(abs_ba as int == iabs(area2x(result_ba.points@)));
        }
        if abs_ba <= abs_ab {
            proof {
                assert(m.is_filled && m.points == result_ba.points@);
            }
            &result_ba
        } else {
            proof {
                assert(m.is_filled && m.points == result_ab.points@);
            }
            &result_ab
        }
    } else if valid_ab {
        proof {
            assert(m.is_filled && m.points == result_ab.points@);
        }
        &result_ab
    } else if valid_ba {
        proof {
            assert(m.is_filled && m.points == result_ba.points@);
        }
        &result_ba
    } else {
        proof {
            assert(!m.is_filled && m.reason == Some(FailReason::NoClosure));
        }
        return FillOutcome::NoFill(FailReason::NoClosure);
    };
    proof {
        assert(m.is_filled && m.points == selected.points@);
    }
    let mut points: Vec<Pt> = Vec::new();
    let np = selected.points.len();
    let mut k: usize = 0;
    while k < np
        invariant
            np == selected.points@.len(),
            k <= np,
            points@ == selected.points@.take(k as int),
        decreases np - k,
    {
        points.push(selected.points[k]);
        k += 1;
        proof {
            assert(selected.points@.take(k as int) =~= selected.points@.take(k as int - 1).push(
                selected.points@[k - 1],
            ));
        }
    }
    proof {
        assert(selected.points@.take(np as int) =~= selected.points@);
    }
    FillOutcome::Filled(Polygon { points, color })
}

} // verus!
