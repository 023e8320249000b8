//! The face tracer: a deterministic, side-locked boundary walk.
//!
//! From a seed directed edge the walk repeatedly chooses the next node among
//! the real outgoing half-edges (or, when none is admissible, among nearby
//! virtual gap bridges), steering by the exact signed turn angle and a total
//! tie-break order. It returns a closed ring, or a typed failure, always
//! within the deterministic step bound.

use vstd::prelude::*;

use crate::arrange::views_of;
use crate::arrange::ArrViews;
use crate::arrange::Arrangement;
use crate::geom::abs_turn_eq;
use crate::geom::abs_turn_eq_e;
use crate::geom::abs_turn_lt;
use crate::geom::abs_turn_lt_e;
use crate::geom::lemma_mul_bound;
use crate::geom::pt_in_range;
use crate::geom::Pt;
use crate::poly::ring_in_range;

verus! {

/// Marker for "no segment id" in an edge key of a virtual transition.
pub const SEG_NONE: usize = usize::MAX;

/// Why a walk stopped without producing a closed ring.
#[derive(Clone, Copy, PartialEq, Eq, Structural, Debug)]
pub enum FailReason {
    DeadEnd,
    StepLimit,
    PrematureCycle,
    NoClosure,
}

/// Which of the two faces adjacent to the seed edge the walk follows.
#[derive(Clone, Copy, PartialEq, Eq, Structural, Debug)]
pub enum SideRule {
    KeepLeft,
    KeepRight,
}

/// A directed transition taken by the walk, tagged with its segment (or
/// `SEG_NONE` with `is_virtual` for a gap bridge).
#[derive(Clone, Copy, PartialEq, Eq, Structural, Debug)]
pub struct EdgeKey {
    pub from: usize,
    pub to: usize,
    pub seg: usize,
    pub is_virtual: bool,
}

/// One admissible continuation of the walk, with everything the tie-break
/// order inspects. Turn angles are carried exactly as the cross and dot
/// products of the incoming and outgoing direction vectors.
#[derive(Clone, Copy, PartialEq, Eq, Structural, Debug)]
pub struct Candidate {
    pub next: usize,
    pub turn_c: i64,
    pub turn_d: i64,
    pub is_virtual: bool,
    pub he_idx: usize,
    pub seg_id: usize,
    pub len_sq: i64,
    pub mid_sq: i64,
    pub accepted_side: bool,
}

/// The outcome of one walk: a closed ring of boundary points, or a typed
/// failure with no points; `steps` counts the walk's advances.
pub struct TraceResult {
    pub closed: bool,
    pub points: Vec<Pt>,
    pub fail_reason: Option<FailReason>,
    pub steps: u32,
}

/// The deterministic bound on the number of steps of any walk.
pub open spec fn step_limit(n_segs: int) -> int {
    if 3 * n_segs + 20 < 8 {
        8
    } else {
        3 * n_segs + 20
    }
}

/// The strict tie-break order: smaller absolute turn angle, then real over
/// virtual, then shorter edge, then midpoint closer to the origin, then
/// lower target node id, then lower half-edge index.
pub open spec fn better_candidate(c: Candidate, b: Candidate) -> bool {
    if abs_turn_lt(c.turn_c as int, c.turn_d as int, b.turn_c as int, b.turn_d as int) {
        true
    } else if abs_turn_eq(c.turn_c as int, c.turn_d as int, b.turn_c as int, b.turn_d as int) {
        if !c.is_virtual && b.is_virtual {
            true
        } else if c.is_virtual == b.is_virtual {
            if c.len_sq < b.len_sq {
                true
            } else if c.len_sq == b.len_sq {
                if c.mid_sq < b.mid_sq {
                    true
                } else if c.mid_sq == b.mid_sq {
                    if c.next < b.next {
                        true
                    } else if c.next == b.next {
                        c.he_idx < b.he_idx
                    } else {
                        false
                    }
                } else {
                    false
                }
            } else {
                false
            }
        } else {
            false
        }
    } else {
        false
    }
}

/// The index of the best candidate: a left-to-right scan that replaces the
/// current best only when the newcomer is strictly better, so the earliest
/// of equals wins.
pub open spec fn pick_from(cands: Seq<Candidate>, m: int, best: int) -> int
    decreases cands.len() - m when 0 <= m <= cands.len()
{
    if m >= cands.len() {
        best
    } else {
        pick_from(
            cands,
            m + 1,
            if better_candidate(cands[m], cands[best]) {
                m
            } else {
                best
            },
        )
    }
}

pub open spec fn turn_bounded(c: Candidate) -> bool {
    -0x4000_0000_0000 <= c.turn_c <= 0x4000_0000_0000 && -0x4000_0000_0000 <= c.turn_d
        <= 0x4000_0000_0000
}

fn better_candidate_e(c: &Candidate, b: &Candidate) -> (r: bool)
    requires
        turn_bounded(*c),
        turn_bounded(*b),
    ensures
        r == better_candidate(*c, *b),
{
    if abs_turn_lt_e(c.turn_c, c.turn_d, b.turn_c, b.turn_d) {
        true
    } else if abs_turn_eq_e(c.turn_c, c.turn_d, b.turn_c, b.turn_d) {
        if !c.is_virtual && b.is_virtual {
            true
        } else if c.is_virtual == b.is_virtual {
            if c.len_sq < b.len_sq {
                true
            } else if c.len_sq == b.len_sq {
                if c.mid_sq < b.mid_sq {
                    true
                } else if c.mid_sq == b.mid_sq {
                    if c.next < b.next {
                        true
                    } else if c.next == b.next {
                        c.he_idx < b.he_idx
                    } else {
                        false
                    }
                } else {
                    false
                }
            } else {
                false
            }
        } else {
            false
        }
    } else {
        false
    }
}

/// Picks the best candidate of a non-empty pool under the tie-break order.
fn pick_best(pool: &Vec<Candidate>) -> (r: usize)
    requires
        pool@.len() > 0,
        forall|k: int| 0 <= k < pool@.len() ==> turn_bounded(#[trigger] pool@[k]),
    ensures
        (r as int) == pick_from(pool@, 1, 0),
        (r as int) < pool@.len(),
{
    let n = pool.len();
    let mut best: usize = 0;
    let mut m: usize = 1;
    while m < n
        invariant
            n == pool@.len(),
            forall|k: int| 0 <= k < pool@.len() ==> turn_bounded(#[trigger] pool@[k]),
            1 <= m <= n,
            (best as int) < m,
            pick_from(pool@, m as int, best as int) == pick_from(pool@, 1, 0),
        decreases n - m,
    {
        let c = pool[m];
        let b = pool[best];
        if better_candidate_e(&c, &b) {
            best = m;
        }
        m += 1;
    }
    best
}

/// Whether a directed transition was already taken.
fn edge_visited(visited: &Vec<EdgeKey>, key: EdgeKey) -> (r: bool)
    ensures
        r == visited@.contains(key),
{
    let n = visited.len();
    let mut i: usize = 0;
    while i < n
        invariant
            n == visited@.len(),
            i <= n,
            forall|j: int| 0 <= j < i ==> visited@[j] != key,
        decreases n - i,
    {
        let e = visited[i];
        if e == key {
            proof {
                assert(visited@[i as int] == key);
            }
            return true;
        }
        i += 1;
    }
    false
}

/// Whether sector entry `k` of `from`'s incidence list is a segment joining
/// `from` and `to`.
pub open spec fn sector_joins(arr: ArrViews, from: usize, to: usize, k: int) -> bool {
    let sg = arr.segments[arr.sectors[from as int][k] as int];
    (sg.a == from && sg.b == to) || (sg.b == from && sg.a == to)
}

/// The first joining entry of `from`'s incidence list, from position `k`
/// on; the list length if there is none.
pub open spec fn find_seg_from(arr: ArrViews, from: usize, to: usize, k: int) -> int
    decreases arr.sectors[from as int].len() - k when 0 <= k <= arr.sectors[from as int].len()
{
    let lst = arr.sectors[from as int];
    if k >= lst.len() {
        lst.len() as int
    } else if sector_joins(arr, from, to, k) {
        k
    } else {
        find_seg_from(arr, from, to, k + 1)
    }
}

/// The id of the first segment of `from`'s incidence list joining `from`
/// and `to`; `SEG_NONE` if they are not joined by any segment.
pub open spec fn seg_id_between(arr: ArrViews, from: usize, to: usize) -> usize {
    let lst = arr.sectors[from as int];
    let k = find_seg_from(arr, from, to, 0);
    if k < lst.len() {
        lst[k]
    } else {
        SEG_NONE
    }
}

fn find_segment_id(arr: &Arrangement, from: usize, to: usize) -> (r: usize)
    requires
        crate::arrange::arr_wf(*arr),
        (from as int) < arr.nodes@.len(),
    ensures
        r == seg_id_between(views_of(*arr), from, to),
        r == SEG_NONE || (r as int) < arr.segments@.len(),
{
    let lst = &arr.sectors[from];
    let n = lst.len();
    let mut i: usize = 0;
    while i < n
        invariant
            crate::arrange::arr_wf(*arr),
            (from as int) < arr.nodes@.len(),
            lst@ == arr.sectors@[from as int]@,
            n == lst@.len(),
            i <= n,
            find_seg_from(views_of(*arr), from, to, 0) == find_seg_from(views_of(*arr), from, to, i as int),
        decreases n - i,
    {
        let sid = lst[i];
        let sg = arr.segments[sid];
        if (sg.a == from && sg.b == to) || (sg.b == from && sg.a == to) {
            return sid;
        }
        i += 1;
    }
    SEG_NONE
}


/// The candidate record for stepping from `cur` (reached from `prev`)
/// toward `next`, with every tie-break measure as an exact integer: the
/// turn's cross and dot pair, the squared edge length, and the squared
/// distance of the doubled midpoint from the doubled origin.
pub open spec fn candidate_for(
    nodes: Seq<Pt>,
    cur: usize,
    prev: usize,
    origin: Pt,
    side_rule: SideRule,
    next: usize,
    he_idx: usize,
    seg_id: usize,
    is_virtual: bool,
) -> Candidate {
    let vin_x = nodes[cur as int].x - nodes[prev as int].x;
    let vin_y = nodes[cur as int].y - nodes[prev as int].y;
    let vout_x = nodes[next as int].x - nodes[cur as int].x;
    let vout_y = nodes[next as int].y - nodes[cur as int].y;
    let tc = vin_x * vout_y - vin_y * vout_x;
    let td = vin_x * vout_x + vin_y * vout_y;
    let dmx = 2 * origin.x - (nodes[cur as int].x + nodes[next as int].x);
    let dmy = 2 * origin.y - (nodes[cur as int].y + nodes[next as int].y);
    Candidate {
        next,
        turn_c: tc as i64,
        turn_d: td as i64,
        is_virtual,
        he_idx,
        seg_id,
        len_sq: crate::geom::dist_sq(nodes[cur as int], nodes[next as int]) as i64,
        mid_sq: (dmx * dmx + dmy * dmy) as i64,
        accepted_side: match side_rule {
            SideRule::KeepLeft => crate::geom::turn_is_left(tc, td),
            SideRule::KeepRight => crate::geom::turn_is_right(tc, td),
        },
    }
}

/// Admissibility of a real outgoing half-edge as the next step: it must not
/// bounce straight back to `prev`, its target must be an allowed two-core
/// node at a distinct position, and its directed transition must be
/// unvisited unless it exactly closes the seed edge.
pub open spec fn real_admissible(
    arr: ArrViews,
    cur: usize,
    prev: usize,
    visited: Seq<EdgeKey>,
    start_edge: EdgeKey,
    he_idx: usize,
) -> bool {
    let he = arr.half_edges[he_idx as int];
    let key = EdgeKey { from: cur, to: he.to, seg: he.seg, is_virtual: false };
    &&& he.to != prev
    &&& arr.eff_degree[he.to as int] >= 2
    &&& arr.allow[he.to as int]
    &&& crate::geom::dist_sq(arr.nodes[cur as int], arr.nodes[he.to as int]) > 0
    &&& (!visited.contains(key) || key == start_edge)
}

/// The real candidates of one step, in outgoing (radial) order.
pub open spec fn real_cands(
    arr: ArrViews,
    cur: usize,
    prev: usize,
    origin: Pt,
    side_rule: SideRule,
    visited: Seq<EdgeKey>,
    start_edge: EdgeKey,
    m: int,
    acc: Seq<Candidate>,
) -> Seq<Candidate>
    decreases arr.outgoing[cur as int].len() - m when 0 <= m <= arr.outgoing[cur as int].len()
{
    let lst = arr.outgoing[cur as int];
    if m >= lst.len() {
        acc
    } else {
        let he_idx = lst[m];
        let he = arr.half_edges[he_idx as int];
        let acc1 = if real_admissible(arr, cur, prev, visited, start_edge, he_idx) {
            acc.push(
                candidate_for(
                    arr.nodes,
                    cur,
                    prev,
                    origin,
                    side_rule,
                    he.to,
                    he_idx,
                    he.seg,
                    false,
                ),
            )
        } else {
            acc
        };
        real_cands(arr, cur, prev, origin, side_rule, visited, start_edge, m + 1, acc1)
    }
}

/// Collects the real candidates of one step, exactly as `real_cands` states
/// them.
fn collect_real_candidates(
    arr: &Arrangement,
    cur: usize,
    prev: usize,
    origin: Pt,
    side_rule: SideRule,
    visited: &Vec<EdgeKey>,
    start_edge: EdgeKey,
) -> (cands: Vec<Candidate>)
    requires
        crate::arrange::arr_wf(*arr),
        pt_in_range(origin),
        (cur as int) < arr.nodes@.len(),
        (prev as int) < arr.nodes@.len(),
    ensures
        cands@ == real_cands(
            views_of(*arr),
            cur,
            prev,
            origin,
            side_rule,
            visited@,
            start_edge,
            0,
            Seq::empty(),
        ),
        forall|k: int|
            0 <= k < cands@.len() ==> ((#[trigger] cands@[k]).next as int) < arr.nodes@.len()
                && turn_bounded(cands@[k]),
{
    let n_nodes = arr.nodes.len();
    let cur_pt = arr.nodes[cur];
    let prev_pt = arr.nodes[prev];
    let vin_x: i64 = cur_pt.x - prev_pt.x;
    let vin_y: i64 = cur_pt.y - prev_pt.y;
    let mut cands: Vec<Candidate> = Vec::new();
    let out_list = &arr.outgoing[cur];
    let n_out = out_list.len();
    let mut oi: usize = 0;
    while oi < n_out
        invariant
            crate::arrange::arr_wf(*arr),
            pt_in_range(origin),
            n_nodes == arr.nodes@.len(),
            (cur as int) < n_nodes,
            (prev as int) < n_nodes,
            out_list@ == arr.outgoing@[cur as int]@,
            n_out == out_list@.len(),
            oi <= n_out,
            cur_pt == arr.nodes@[cur as int],
            pt_in_range(cur_pt),
            vin_x == arr.nodes@[cur as int].x - arr.nodes@[prev as int].x,
            vin_y == arr.nodes@[cur as int].y - arr.nodes@[prev as int].y,
            real_cands(views_of(*arr), cur, prev, origin, side_rule, visited@, start_edge, oi as int, cands@)
                == real_cands(
                views_of(*arr),
                cur,
                prev,
                origin,
                side_rule,
                visited@,
                start_edge,
                0,
                Seq::empty(),
            ),
            forall|k: int|
                0 <= k < cands@.len() ==> ((#[trigger] cands@[k]).next as int) < n_nodes
                    && turn_bounded(cands@[k]),
        decreases n_out - oi,
    {
        let he_idx = out_list[oi];
        let he = arr.half_edges[he_idx];
        let next = he.to;
        if next != prev {
            let next_pt = arr.nodes[next];
            let eff_ok = arr.eff_degree[next] >= 2 && arr.allow[next];
            if eff_ok {
                let len_sq = crate::geom::dist_sq_e(cur_pt, next_pt);
                if len_sq > 0 {
                    let vout_x: i64 = next_pt.x - cur_pt.x;
                    let vout_y: i64 = next_pt.y - cur_pt.y;
                    proof {
                        lemma_mul_bound(vin_x as int, vout_y as int, 0x10_0000);
                        lemma_mul_bound(vin_y as int, vout_x as int, 0x10_0000);
                        lemma_mul_bound(vin_x as int, vout_x as int, 0x10_0000);
                        lemma_mul_bound(vin_y as int, vout_y as int, 0x10_0000);
                    }
                    let turn_c: i64 = vin_x * vout_y - vin_y * vout_x;
                    let turn_d: i64 = vin_x * vout_x + vin_y * vout_y;
                    let dmx: i64 = 2 * origin.x - (cur_pt.x + next_pt.x);
                    let dmy: i64 = 2 * origin.y - (cur_pt.y + next_pt.y);
                    proof {
                        lemma_mul_bound(dmx as int, dmx as int, 0x40_0000);
                        lemma_mul_bound(dmy as int, dmy as int, 0x40_0000);
                        assert(dmx * dmx >= 0 && dmy * dmy >= 0) by (nonlinear_arith);
                    }
                    let mid_sq: i64 = dmx * dmx + dmy * dmy;
                    let accepted_side = match side_rule {
                        SideRule::KeepLeft => turn_c > 0 || (turn_c == 0 && turn_d < 0),
                        SideRule::KeepRight => turn_c < 0,
                    };
                    let key = EdgeKey { from: cur, to: next, seg: he.seg, is_virtual: false };
                    let already = edge_visited(visited, key);
                    let is_closure = key == start_edge;
                    if !already || is_closure {
                        let c = Candidate {
                            next,
                            turn_c,
                            turn_d,
                            is_virtual: false,
                            he_idx,
                            seg_id: he.seg,
                            len_sq,
                            mid_sq,
                            accepted_side,
                        };
                        proof {
                            assert(c == candidate_for(
                                arr.nodes@,
                                cur,
                                prev,
                                origin,
                                side_rule,
                                next,
                                he_idx,
                                he.seg,
                                false,
                            ));
                        }
                        cands.push(c);
                    }
                }
            }
        }
        oi += 1;
    }
    cands
}


/// One pass over every node, collecting virtual gap bridges: nodes other
/// than `cur` and `prev` that are allowed two-core members within the gap
/// radius. The minimum distance found is tracked over every node in the
/// radius, including ones whose transition is already visited.
pub open spec fn gap_scan(
    arr: ArrViews,
    cur: usize,
    prev: usize,
    origin: Pt,
    side_rule: SideRule,
    visited: Seq<EdgeKey>,
    gap_r2: int,
    nid: int,
    acc: Seq<Candidate>,
    best: int,
) -> (Seq<Candidate>, int)
    decreases arr.nodes.len() - nid when 0 <= nid <= arr.nodes.len()
{
    let nodes = arr.nodes;
    if nid >= nodes.len() {
        (acc, best)
    } else {
        let d2 = crate::geom::dist_sq(nodes[cur as int], nodes[nid]);
        let step = if nid != cur as int && nid != prev as int && arr.eff_degree[nid] >= 2
            && arr.allow[nid] && d2 <= gap_r2 {
            let best1 = if d2 < best {
                d2
            } else {
                best
            };
            let key = EdgeKey { from: cur, to: nid as usize, seg: SEG_NONE, is_virtual: true };
            if d2 > 0 && !visited.contains(key) {
                (
                    acc.push(
                        candidate_for(
                            nodes,
                            cur,
                            prev,
                            origin,
                            side_rule,
                            nid as usize,
                            SEG_NONE,
                            SEG_NONE,
                            true,
                        ),
                    ),
                    best1,
                )
            } else {
                (acc, best1)
            }
        } else {
            (acc, best)
        };
        gap_scan(arr, cur, prev, origin, side_rule, visited, gap_r2, nid + 1, step.0, step.1)
    }
}

/// Keeps only the gap bridges at the minimum distance found.
pub open spec fn min_gap_filter(gc: Seq<Candidate>, best: int, gi: int, acc: Seq<Candidate>) -> Seq<
    Candidate,
>
    decreases gc.len() - gi when 0 <= gi <= gc.len()
{
    if gi >= gc.len() {
        acc
    } else {
        let acc1 = if gc[gi].len_sq <= best {
            acc.push(gc[gi])
        } else {
            acc
        };
        min_gap_filter(gc, best, gi + 1, acc1)
    }
}

/// The virtual candidates of one step: the gap bridges at minimum distance.
pub open spec fn gap_cands_of(
    arr: ArrViews,
    cur: usize,
    prev: usize,
    origin: Pt,
    side_rule: SideRule,
    visited: Seq<EdgeKey>,
    gap_r2: int,
) -> Seq<Candidate> {
    let sc = gap_scan(
        arr,
        cur,
        prev,
        origin,
        side_rule,
        visited,
        gap_r2,
        0,
        Seq::empty(),
        0x7fff_ffff_ffff_ffff,
    );
    min_gap_filter(sc.0, sc.1, 0, Seq::empty())
}

/// Collects the virtual gap candidates of one step, exactly as
/// `gap_cands_of` states them.
fn collect_gap_candidates(
    arr: &Arrangement,
    cur: usize,
    prev: usize,
    origin: Pt,
    side_rule: SideRule,
    visited: &Vec<EdgeKey>,
    gap_r2: i64,
) -> (gc: Vec<Candidate>)
    requires
        crate::arrange::arr_wf(*arr),
        pt_in_range(origin),
        (cur as int) < arr.nodes@.len(),
        (prev as int) < arr.nodes@.len(),
        0 <= gap_r2,
    ensures
        gc@ == gap_cands_of(views_of(*arr), cur, prev, origin, side_rule, visited@, gap_r2 as int),
        forall|k: int|
            0 <= k < gc@.len() ==> ((#[trigger] gc@[k]).next as int) < arr.nodes@.len()
                && turn_bounded(gc@[k]),
{
    let n_nodes = arr.nodes.len();
    let cur_pt = arr.nodes[cur];
    let prev_pt = arr.nodes[prev];
    let vin_x: i64 = cur_pt.x - prev_pt.x;
    let vin_y: i64 = cur_pt.y - prev_pt.y;
    let mut gap_cands: Vec<Candidate> = Vec::new();
    let mut best_dist: i64 = i64::MAX;
    let mut nid: usize = 0;
    while nid < n_nodes
        invariant
            crate::arrange::arr_wf(*arr),
            pt_in_range(origin),
            n_nodes == arr.nodes@.len(),
            (cur as int) < n_nodes,
            (prev as int) < n_nodes,
            nid <= n_nodes,
            0 <= gap_r2,
            cur_pt == arr.nodes@[cur as int],
            pt_in_range(cur_pt),
            vin_x == arr.nodes@[cur as int].x - arr.nodes@[prev as int].x,
            vin_y == arr.nodes@[cur as int].y - arr.nodes@[prev as int].y,
            gap_scan(
                views_of(*arr),
                cur,
                prev,
                origin,
                side_rule,
                visited@,
                gap_r2 as int,
                nid as int,
                gap_cands@,
                best_dist as int,
            ) == gap_scan(
                views_of(*arr),
                cur,
                prev,
                origin,
                side_rule,
                visited@,
                gap_r2 as int,
                0,
                Seq::empty(),
                0x7fff_ffff_ffff_ffff,
            ),
            forall|k: int|
                0 <= k < gap_cands@.len() ==> ((#[trigger] gap_cands@[k]).next as int) < n_nodes
                    && turn_bounded(gap_cands@[k]),
        decreases n_nodes - nid,
    {
        if nid != cur && nid != prev {
            let eff_ok = arr.eff_degree[nid] >= 2 && arr.allow[nid];
            if eff_ok {
                let node_pt = arr.nodes[nid];
                let d2 = crate::geom::dist_sq_e(cur_pt, node_pt);
                if d2 <= gap_r2 {
                    if d2 < best_dist {
                        best_dist = d2;
                    }
                    if d2 > 0 {
                        let key = EdgeKey { from: cur, to: nid, seg: SEG_NONE, is_virtual: true };
                        if !edge_visited(visited, key) {
                            let vout_x: i64 = node_pt.x - cur_pt.x;
                            let vout_y: i64 = node_pt.y - cur_pt.y;
                            proof {
                                lemma_mul_bound(vin_x as int, vout_y as int, 0x10_0000);
                                lemma_mul_bound(vin_y as int, vout_x as int, 0x10_0000);
                                lemma_mul_bound(vin_x as int, vout_x as int, 0x10_0000);
                                lemma_mul_bound(vin_y as int, vout_y as int, 0x10_0000);
                            }
                            let turn_c: i64 = vin_x * vout_y - vin_y * vout_x;
                            let turn_d: i64 = vin_x * vout_x + vin_y * vout_y;
                            let dmx: i64 = 2 * origin.x - (cur_pt.x + node_pt.x);
                            let dmy: i64 = 2 * origin.y - (cur_pt.y + node_pt.y);
                            proof {
                                lemma_mul_bound(dmx as int, dmx as int, 0x40_0000);
                                lemma_mul_bound(dmy as int, dmy as int, 0x40_0000);
                                assert(dmx * dmx >= 0 && dmy * dmy >= 0) by (nonlinear_arith);
                            }
                            let mid_sq: i64 = dmx * dmx + dmy * dmy;
                            let accepted_side = match side_rule {
                                SideRule::KeepLeft => turn_c > 0 || (turn_c == 0 && turn_d < 0),
                                SideRule::KeepRight => turn_c < 0,
                            };
                            let c = Candidate {
                                next: nid,
                                turn_c,
                                turn_d,
                                is_virtual: true,
                                he_idx: SEG_NONE,
                                seg_id: SEG_NONE,
                                len_sq: d2,
                                mid_sq,
                                accepted_side,
                            };
                            proof {
                                assert(c == candidate_for(
                                    arr.nodes@,
                                    cur,
                                    prev,
                                    origin,
                                    side_rule,
                                    nid,
                                    SEG_NONE,
                                    SEG_NONE,
                                    true,
                                ));
                            }
                            gap_cands.push(c);
                        }
                    }
                }
            }
        }
        nid += 1;
    }
    // keep only the gap bridges at the minimum distance found
    let ng = gap_cands.len();
    let mut out: Vec<Candidate> = Vec::new();
    let mut gi: usize = 0;
    while gi < ng
        invariant
            ng == gap_cands@.len(),
            gi <= ng,
            min_gap_filter(gap_cands@, best_dist as int, gi as int, out@) == min_gap_filter(
                gap_cands@,
                best_dist as int,
                0,
                Seq::empty(),
            ),
            forall|k: int|
                0 <= k < gap_cands@.len() ==> ((#[trigger] gap_cands@[k]).next as int) < n_nodes
                    && turn_bounded(gap_cands@[k]),
            forall|k: int|
                0 <= k < out@.len() ==> ((#[trigger] out@[k]).next as int) < n_nodes
                    && turn_bounded(out@[k]),
        decreases ng - gi,
    {
        let gc0 = gap_cands[gi];
        if gc0.len_sq <= best_dist {
            out.push(gc0);
        }
        gi += 1;
    }
    out
}

/// The side-accepted subset of the candidates, in order.
pub open spec fn side_pool(cands: Seq<Candidate>, ci: int, acc: Seq<Candidate>) -> Seq<Candidate>
    decreases cands.len() - ci when 0 <= ci <= cands.len()
{
    if ci >= cands.len() {
        acc
    } else {
        let acc1 = if cands[ci].accepted_side {
            acc.push(cands[ci])
        } else {
            acc
        };
        side_pool(cands, ci + 1, acc1)
    }
}

proof fn lemma_side_pool_elems(cands: Seq<Candidate>, ci: int, acc: Seq<Candidate>, n_nodes: int)
    requires
        0 <= ci <= cands.len(),
        forall|k: int|
            0 <= k < cands.len() ==> ((#[trigger] cands[k]).next as int) < n_nodes && turn_bounded(
                cands[k],
            ),
        forall|k: int|
            0 <= k < acc.len() ==> ((#[trigger] acc[k]).next as int) < n_nodes && turn_bounded(
                acc[k],
            ),
    ensures
        forall|k: int|
            0 <= k < side_pool(cands, ci, acc).len() ==> ((#[trigger] side_pool(cands, ci, acc)[k]).next
                as int) < n_nodes && turn_bounded(side_pool(cands, ci, acc)[k]),
    decreases cands.len() - ci,
{
    if ci < cands.len() {
        let acc1 = if cands[ci].accepted_side {
            acc.push(cands[ci])
        } else {
            acc
        };
        lemma_side_pool_elems(cands, ci + 1, acc1, n_nodes);
        assert(side_pool(cands, ci, acc) == side_pool(cands, ci + 1, acc1));
    }
}

/// Filters the candidates down to those satisfying the side rule.
fn filter_side_pool(cands: &Vec<Candidate>) -> (pool: Vec<Candidate>)
    ensures
        pool@ == side_pool(cands@, 0, Seq::empty()),
{
    let nc = cands.len();
    let mut pool: Vec<Candidate> = Vec::new();
    let mut ci: usize = 0;
    while ci < nc
        invariant
            nc == cands@.len(),
            ci <= nc,
            side_pool(cands@, ci as int, pool@) == side_pool(cands@, 0, Seq::empty()),
        decreases nc - ci,
    {
        let c = cands[ci];
        if c.accepted_side {
            pool.push(c);
        }
        ci += 1;
    }
    pool
}


/// The distinct endpoint ids of the visited transitions, seeded with the
/// walk's starting node, in first-seen order.
pub open spec fn uniq_nodes(visited: Seq<EdgeKey>, vi: int, uniq: Seq<usize>) -> Seq<usize>
    decreases visited.len() - vi when 0 <= vi <= visited.len()
{
    if vi >= visited.len() {
        uniq
    } else {
        let e = visited[vi];
        let u1 = if uniq.contains(e.from) {
            uniq
        } else {
            uniq.push(e.from)
        };
        let u2 = if u1.contains(e.to) {
            u1
        } else {
            u1.push(e.to)
        };
        uniq_nodes(visited, vi + 1, u2)
    }
}

/// Counts the distinct endpoint ids of the visited transitions, seeded with
/// the walk's starting node.
fn count_distinct_endpoints(visited: &Vec<EdgeKey>, start: usize) -> (c: usize)
    ensures
        c as int == uniq_nodes(visited@, 0, seq![start]).len(),
{
    let mut uniq: Vec<usize> = Vec::new();
    uniq.push(start);
    proof {
        assert(uniq@ =~= seq![start]);
    }
    let nv = visited.len();
    let mut vi: usize = 0;
    while vi < nv
        invariant
            nv == visited@.len(),
            vi <= nv,
            uniq_nodes(visited@, vi as int, uniq@) == uniq_nodes(visited@, 0, seq![start]),
        decreases nv - vi,
    {
        let e = visited[vi];
        let ghost u0 = uniq@;
        let mut seen_from = false;
        let mut seen_to = false;
        let nu = uniq.len();
        let mut ui: usize = 0;
        while ui < nu
            invariant
                nu == uniq@.len(),
                uniq@ == u0,
                ui <= nu,
                seen_from ==> u0.contains(e.from),
                !seen_from ==> forall|j: int| 0 <= j < ui ==> u0[j] != e.from,
                seen_to ==> u0.contains(e.to),
                !seen_to ==> forall|j: int| 0 <= j < ui ==> u0[j] != e.to,
            decreases nu - ui,
    {
            let u = uniq[ui];
            if u == e.from {
                proof {
                    assert(u0[ui as int] == e.from);
                }
                seen_from = true;
            }
            if u == e.to {
                proof {
                    assert(u0[ui as int] == e.to);
                }
                seen_to = true;
            }
            ui += 1;
        }
        proof {
            assert(seen_from == u0.contains(e.from));
            assert(seen_to == u0.contains(e.to));
        }
        if !seen_from {
            uniq.push(e.from);
        }
        let ghost u1 = if u0.contains(e.from) {
            u0
        } else {
            u0.push(e.from)
        };
        proof {
            assert(uniq@ == u1);
            // membership in the once-extended list
            if seen_to {
                let j = choose|j: int| 0 <= j < u0.len() && u0[j] == e.to;
                assert(u1[j] == e.to);
                assert(u1.contains(e.to));
            } else if !seen_from && e.to == e.from {
                assert(u1[u1.len() - 1] == e.to);
                assert(u1.contains(e.to));
            } else {
                assert(!u1.contains(e.to)) by {
                    if u1.contains(e.to) {
                        let j = choose|j: int| 0 <= j < u1.len() && u1[j] == e.to;
                        if j < u0.len() {
                            assert(u0[j] == e.to);
                        }
                    }
                }
            }
        }
        let seen_to_now = seen_to || (!seen_from && e.to == e.from);
        proof {
            assert(seen_to_now == u1.contains(e.to));
        }
        if !seen_to_now {
            uniq.push(e.to);
        }
        vi += 1;
        proof {
            let u2 = if u1.contains(e.to) {
                u1
            } else {
                u1.push(e.to)
            };
            assert(uniq@ == u2);
            assert(uniq_nodes(visited@, vi as int - 1, u0) == uniq_nodes(visited@, vi as int, u2));
        }
    }
    uniq.len()
}

/// The walk's outcome, at the specification level.
pub struct TraceModel {
    pub closed: bool,
    pub points: Seq<Pt>,
    pub fail_reason: Option<FailReason>,
    pub steps: int,
}

pub open spec fn model_success(points: Seq<Pt>, steps: int) -> TraceModel {
    TraceModel { closed: true, points, fail_reason: None, steps }
}

pub open spec fn model_fail(reason: FailReason, steps: int) -> TraceModel {
    TraceModel { closed: false, points: Seq::empty(), fail_reason: Some(reason), steps }
}

/// One walk from the given state: at each step the admissible real
/// candidates (or, when none, the minimum-distance gap bridges) are
/// collected, the side-rule pool is preferred, the tie-break order picks the
/// continuation, and the walk closes on re-taking the seed edge after three
/// distinct nodes, fails with a premature cycle on any other repeat (or a
/// too-early closure), runs dry into a dead end, or exhausts the step bound.
pub open spec fn walk_from(
    arr: ArrViews,
    side_rule: SideRule,
    origin: Pt,
    gap_r2: int,
    start_from: usize,
    start_edge: EdgeKey,
    cur: usize,
    prev: usize,
    boundary: Seq<Pt>,
    visited: Seq<EdgeKey>,
    step_idx: int,
) -> TraceModel
    decreases step_limit(arr.segments.len() as int) - step_idx when 0 <= step_idx
{
    if step_idx >= step_limit(arr.segments.len() as int) {
        model_fail(FailReason::StepLimit, step_idx)
    } else {
        let rc = real_cands(arr, cur, prev, origin, side_rule, visited, start_edge, 0, Seq::empty());
        let cands = if rc.len() > 0 {
            rc
        } else {
            gap_cands_of(arr, cur, prev, origin, side_rule, visited, gap_r2)
        };
        if cands.len() == 0 {
            model_fail(FailReason::DeadEnd, step_idx)
        } else {
            let pool = side_pool(cands, 0, Seq::empty());
            let chosen = if pool.len() > 0 {
                pool[pick_from(pool, 1, 0)]
            } else {
                cands[pick_from(cands, 1, 0)]
            };
            let key = EdgeKey {
                from: cur,
                to: chosen.next,
                seg: chosen.seg_id,
                is_virtual: chosen.is_virtual,
            };
            let boundary1 = boundary.push(arr.nodes[chosen.next as int]);
            if key == start_edge && step_idx >= 1 {
                if uniq_nodes(visited, 0, seq![start_from]).len() < 3 {
                    model_fail(FailReason::PrematureCycle, step_idx)
                } else {
                    model_success(boundary1, step_idx + 1)
                }
            } else if visited.contains(key) {
                model_fail(FailReason::PrematureCycle, step_idx)
            } else {
                walk_from(
                    arr,
                    side_rule,
                    origin,
                    gap_r2,
                    start_from,
                    start_edge,
                    chosen.next,
                    cur,
                    boundary1,
                    visited.push(key),
                    step_idx + 1,
                )
            }
        }
    }
}

/// The whole walk as a function of its inputs: exactly what
/// `trace_face_side` computes. An out-of-range seed is a dead end at step
/// zero; otherwise the walk starts at the seed's target with the seed
/// transition already visited.
pub open spec fn trace_model(
    arr: ArrViews,
    start_from: usize,
    start_to: usize,
    side_rule: SideRule,
    origin: Pt,
    gap_radius: int,
) -> TraceModel {
    if start_from as int >= arr.nodes.len() || start_to as int >= arr.nodes.len() {
        model_fail(FailReason::DeadEnd, 0)
    } else {
        let start_edge = EdgeKey {
            from: start_from,
            to: start_to,
            seg: seg_id_between(arr, start_from, start_to),
            is_virtual: false,
        };
        walk_from(
            arr,
            side_rule,
            origin,
            gap_radius * gap_radius,
            start_from,
            start_edge,
            start_to,
            start_from,
            seq![arr.nodes[start_to as int]],
            seq![start_edge],
            0,
        )
    }
}

/// The executable result agrees with a model outcome field for field.
pub open spec fn result_matches(r: TraceResult, m: TraceModel) -> bool {
    &&& r.closed == m.closed
    &&& r.points@ == m.points
    &&& r.fail_reason == m.fail_reason
    &&& r.steps as int == m.steps
}

impl TraceResult {
    fn success(points: Vec<Pt>, steps: u32) -> (r: TraceResult)
        ensures
            r.closed,
            r.points == points,
            r.fail_reason is None,
            r.steps == steps,
    {
        TraceResult { closed: true, points, fail_reason: None, steps }
    }

    fn fail(reason: FailReason, steps: u32) -> (r: TraceResult)
        ensures
            !r.closed,
            r.points@ == Seq::<Pt>::empty(),
            r.points@.len() == 0,
            r.fail_reason == Some(reason),
            r.steps == steps,
    {
        let r = TraceResult { closed: false, points: Vec::new(), fail_reason: Some(reason), steps };
        proof {
            assert(r.points@ =~= Seq::<Pt>::empty());
        }
        r
    }
}

/// One side-locked boundary walk from the seed edge `start_from ->
/// start_to`. It provably returns within `max(8, 3 * segments + 20)` steps;
/// a closed result is a ring of at least three in-range points whose first
/// and last point coincide, and a failed result carries its reason and no
/// points.
#[verifier::rlimit(100)]
pub fn trace_face_side(
    arr: &Arrangement,
    start_from: usize,
    start_to: usize,
    side_rule: SideRule,
    origin: Pt,
    gap_radius: i64,
) -> (r: TraceResult)
    requires
        crate::arrange::arr_wf(*arr),
        pt_in_range(origin),
        0 <= gap_radius <= 4 * 524288,
        arr.segments@.len() < 0x4000_0000,
    ensures
        result_matches(
            r,
            trace_model(views_of(*arr), start_from, start_to, side_rule, origin, gap_radius as int),
        ),
        r.steps as int <= step_limit(arr.segments@.len() as int),
        r.closed ==> r.points@.len() >= 3,
        r.closed ==> r.points@.len() == r.steps + 1,
        r.closed ==> r.points@[0] == r.points@[r.points@.len() - 1],
        r.closed ==> ring_in_range(r.points@),
        r.closed <==> r.fail_reason is None,
        !r.closed ==> r.points@.len() == 0,
{
    let ghost model = trace_model(views_of(*arr), start_from, start_to, side_rule, origin, gap_radius as int);
    let n_nodes = arr.nodes.len();
    let ghost limit = step_limit(arr.segments@.len() as int);
    if start_from >= n_nodes || start_to >= n_nodes {
        return TraceResult::fail(FailReason::DeadEnd, 0);
    }
    proof {
        lemma_mul_bound(gap_radius as int, gap_radius as int, 0x20_0000);
    }
    let gap_r2: i64 = gap_radius * gap_radius;
    let mut cur: usize = start_to;
    let mut prev: usize = start_from;
    let mut boundary: Vec<Pt> = Vec::new();
    boundary.push(arr.nodes[cur]);
    let start_seg = find_segment_id(arr, start_from, start_to);
    let start_edge = EdgeKey { from: start_from, to: start_to, seg: start_seg, is_virtual: false };
    let mut visited: Vec<EdgeKey> = Vec::new();
    visited.push(start_edge);
    proof {
        assert(boundary@ =~= seq![arr.nodes@[start_to as int]]);
        assert(visited@ =~= seq![start_edge]);
        assert(model == walk_from(
            views_of(*arr),
            side_rule,
            origin,
            gap_r2 as int,
            start_from,
            start_edge,
            cur,
            prev,
            boundary@,
            visited@,
            0,
        ));
    }
    let seg_count = arr.segments.len();
    let ms64: u64 = 3 * (seg_count as u64) + 20;
    let max_steps: u32 = if ms64 < 8 {
        8
    } else {
        ms64 as u32
    };
    proof {
        assert(max_steps as int == limit);
    }
    let mut step_idx: u32 = 0;
    while step_idx < max_steps
        invariant
            crate::arrange::arr_wf(*arr),
            pt_in_range(origin),
            0 <= gap_r2,
            n_nodes == arr.nodes@.len(),
            (start_to as int) < n_nodes,
            (start_from as int) < n_nodes,
            (cur as int) < n_nodes,
            (prev as int) < n_nodes,
            step_idx <= max_steps,
            max_steps as int == step_limit(arr.segments@.len() as int),
            boundary@.len() == step_idx + 1,
            boundary@[0] == arr.nodes@[start_to as int],
            ring_in_range(boundary@),
            start_edge.from == start_from && start_edge.to == start_to && !start_edge.is_virtual,
            model == trace_model(views_of(*arr), start_from, start_to, side_rule, origin, gap_radius as int),
            model == walk_from(
                views_of(*arr),
                side_rule,
                origin,
                gap_r2 as int,
                start_from,
                start_edge,
                cur,
                prev,
                boundary@,
                visited@,
                step_idx as int,
            ),
        decreases max_steps - step_idx,
    {
        // real candidates: outgoing half-edges to allowed two-core targets
        let rc = collect_real_candidates(arr, cur, prev, origin, side_rule, &visited, start_edge);
        // gap bridging: nearest allowed nodes within the radius
        let cands = if rc.len() > 0 {
            rc
        } else {
            collect_gap_candidates(arr, cur, prev, origin, side_rule, &visited, gap_r2)
        };
        let ghost rc_s = real_cands(
            views_of(*arr),
            cur,
            prev,
            origin,
            side_rule,
            visited@,
            start_edge,
            0,
            Seq::empty(),
        );
        let ghost cands_s = if rc_s.len() > 0 {
            rc_s
        } else {
            gap_cands_of(views_of(*arr), cur, prev, origin, side_rule, visited@, gap_r2 as int)
        };
        proof {
            assert(cands_s == cands@);
        }
        if cands.len() == 0 {
            proof {
                assert(model == model_fail(FailReason::DeadEnd, step_idx as int));
            }
            return TraceResult::fail(FailReason::DeadEnd, step_idx);
        }
        // the side-locked pool, falling back to every candidate when no
        // continuation satisfies the handedness
        let pool = filter_side_pool(&cands);
        proof {
            lemma_side_pool_elems(cands@, 0, Seq::empty(), n_nodes as int);
        }
        let chosen: Candidate = if pool.len() > 0 {
            let idx = pick_best(&pool);
            pool[idx]
        } else {
            let idx = pick_best(&cands);
            cands[idx]
        };
        let ghost chosen_s = ({
            let pool_s = side_pool(cands_s, 0, Seq::empty());
            if pool_s.len() > 0 {
                pool_s[pick_from(pool_s, 1, 0)]
            } else {
                cands_s[pick_from(cands_s, 1, 0)]
            }
        });
        proof {
            assert(chosen_s == chosen);
        }
        let selected_key = EdgeKey {
            from: cur,
            to: chosen.next,
            seg: chosen.seg_id,
            is_virtual: chosen.is_virtual,
        };
        let ghost b0 = boundary@;
        let next_pt = arr.nodes[chosen.next];
        boundary.push(next_pt);
        proof {
            assert(boundary@ == b0.push(arr.nodes@[chosen.next as int]));
        }
        if selected_key == start_edge && step_idx >= 1 {
            // closing the loop needs at least three distinct visited nodes
            let distinct = count_distinct_endpoints(&visited, start_from);
            if distinct < 3 {
                proof {
                    assert(model == model_fail(FailReason::PrematureCycle, step_idx as int));
                }
                return TraceResult::fail(FailReason::PrematureCycle, step_idx);
            }
            proof {
                assert(boundary@.len() >= 3);
                assert(boundary@[boundary@.len() - 1] == arr.nodes@[start_to as int]);
                assert(model == model_success(boundary@, step_idx as int + 1));
            }
            return TraceResult::success(boundary, step_idx + 1);
        }
        if edge_visited(&visited, selected_key) {
            proof {
                assert(model == model_fail(FailReason::PrematureCycle, step_idx as int));
            }
            return TraceResult::fail(FailReason::PrematureCycle, step_idx);
        }
        visited.push(selected_key);
        prev = cur;
        cur = chosen.next;
        step_idx += 1;
        proof {
            assert(model == walk_from(
                views_of(*arr),
                side_rule,
                origin,
                gap_r2 as int,
                start_from,
                start_edge,
                cur,
                prev,
                boundary@,
                visited@,
                step_idx as int,
            ));
        }
    }
    proof {
        assert(model == model_fail(FailReason::StepLimit, step_idx as int));
    }
    TraceResult::fail(FailReason::StepLimit, step_idx)
}

} // verus!
