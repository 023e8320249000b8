//! Planar arrangement builder.
//!
//! The raw drawn lines are converted into a node / segment / half-edge graph:
//! endpoints and pairwise strictly-interior crossings are registered as
//! shared nodes (deduplicated by their exact subunit coordinates), every line
//! is split at its registered points in parametric order, and each node gets
//! its outgoing half-edges in counter-clockwise radial order.
//!
//! Every phase is an exact function of the input line list, stated by a spec
//! mirror; rebuilding from the same lines therefore provably yields the same
//! structures.

use vstd::prelude::*;

use crate::geom::pt_in_range;
use crate::geom::LineSeg;
use crate::geom::Pt;
use crate::poly::inter_den_pos;
use crate::poly::inter_point;
use crate::poly::inter_t_pos;
use crate::poly::inter_u_pos;
use crate::poly::line_intersection;
use crate::poly::strict_interior_crossing;

verus! {

/// A registered point on a line: its parameter along the line as the exact
/// fraction `num / den` (with `den > 0`), and the node registered for it.
#[derive(Clone, Copy, PartialEq, Eq, Structural, Debug)]
pub struct PN {
    pub num: i64,
    pub den: i64,
    pub node: usize,
}

/// One strictly interior crossing of lines `i < j`, in discovery order.
#[derive(Clone, Copy, PartialEq, Eq, Structural, Debug)]
pub struct CrossRec {
    pub i: usize,
    pub j: usize,
    pub t1: i64,
    pub t2: i64,
    pub den: i64,
    pub node: usize,
}

/// An atomic undirected segment of the arrangement between two node ids.
#[derive(Clone, Copy, PartialEq, Eq, Structural, Debug)]
pub struct Seg {
    pub a: usize,
    pub b: usize,
}

/// One direction of a segment.
#[derive(Clone, Copy, PartialEq, Eq, Structural, Debug)]
pub struct HalfEdge {
    pub from: usize,
    pub to: usize,
    pub seg: usize,
}

/// The other endpoint of a segment as seen from `node`.
pub fn other_end(seg: &Seg, node: usize) -> (r: usize)
    ensures
        r == (if seg.a == node {
            seg.b
        } else {
            seg.a
        }),
{
    if seg.a == node {
        seg.b
    } else {
        seg.a
    }
}

/// Index of the first node at exactly `p`, from position `k` on; the list
/// length if there is none.
pub open spec fn find_from(nodes: Seq<Pt>, p: Pt, k: int) -> int
    decreases nodes.len() - k when 0 <= k <= nodes.len()
{
    if k >= nodes.len() {
        nodes.len() as int
    } else if nodes[k] == p {
        k
    } else {
        find_from(nodes, p, k + 1)
    }
}

/// Registry step: the node list and the id under which `p` is registered.
/// Two points are one node exactly when their subunit coordinates coincide.
pub open spec fn reg_insert(nodes: Seq<Pt>, p: Pt) -> (Seq<Pt>, int) {
    let j = find_from(nodes, p, 0);
    if j < nodes.len() {
        (nodes, j)
    } else {
        (nodes.push(p), nodes.len() as int)
    }
}

/// No two registered nodes share their exact coordinates.
pub open spec fn nodes_distinct(s: Seq<Pt>) -> bool {
    forall|i: int, j: int| 0 <= i < j < s.len() ==> (#[trigger] s[i]) != (#[trigger] s[j])
}

/// Exact-coordinate node registry, shared by line endpoints and crossing
/// points.
pub struct IntersectionRegistry {
    pub nodes: Vec<Pt>,
}

impl IntersectionRegistry {
    pub fn new() -> (r: IntersectionRegistry)
        ensures
            r.nodes@.len() == 0,
    {
        IntersectionRegistry { nodes: Vec::new() }
    }

    /// Returns the id of the node at exactly `p`, registering a fresh node
    /// if there is none.
    pub fn get_or_insert(&mut self, p: Pt) -> (id: usize)
        ensures
            final(self).nodes@ == reg_insert(old(self).nodes@, p).0,
            id as int == reg_insert(old(self).nodes@, p).1,
            final(self).nodes@.len() >= old(self).nodes@.len(),
            (id as int) < final(self).nodes@.len(),
            final(self).nodes@[id as int] == p,
            forall|k: int|
                0 <= k < old(self).nodes@.len() ==> final(self).nodes@[k] == old(self).nodes@[k],
            nodes_distinct(old(self).nodes@) ==> nodes_distinct(final(self).nodes@),
            crate::poly::ring_in_range(old(self).nodes@) && pt_in_range(p)
                ==> crate::poly::ring_in_range(final(self).nodes@),
    {
        let n = self.nodes.len();
        let mut i: usize = 0;
        while i < n
            invariant
                *self == *old(self),
                n == self.nodes@.len(),
                i <= n,
                find_from(self.nodes@, p, 0) == find_from(self.nodes@, p, i as int),
                forall|j: int| 0 <= j < i ==> self.nodes@[j] != p,
            decreases n - i,
        {
            let q = self.nodes[i];
            if q.x == p.x && q.y == p.y {
                return i;
            }
            i += 1;
        }
        let id = self.nodes.len();
        self.nodes.push(p);
        id
    }
}

/// Endpoint registration: every line's two endpoints become nodes, and every
/// line starts with the parameter list `[(0, end a), (1, end b)]`.
pub open spec fn endpoints_phase(
    lines: Seq<LineSeg>,
    i: int,
    nodes: Seq<Pt>,
    pl: Seq<Seq<PN>>,
) -> (Seq<Pt>, Seq<Seq<PN>>)
    decreases lines.len() - i when 0 <= i <= lines.len()
{
    if i >= lines.len() {
        (nodes, pl)
    } else {
        let r0 = reg_insert(nodes, lines[i].a);
        let r1 = reg_insert(r0.0, lines[i].b);
        let row = seq![
            PN { num: 0, den: 1, node: r0.1 as usize },
            PN { num: 1, den: 1, node: r1.1 as usize },
        ];
        endpoints_phase(lines, i + 1, r1.0, pl.push(row))
    }
}

/// Crossing collection, inner loop: line `i` against lines `j, j+1, ...`.
pub open spec fn cross_inner(
    lines: Seq<LineSeg>,
    i: int,
    j: int,
    nodes: Seq<Pt>,
    recs: Seq<CrossRec>,
) -> (Seq<Pt>, Seq<CrossRec>)
    decreases lines.len() - j when 0 <= j <= lines.len()
{
    if j >= lines.len() {
        (nodes, recs)
    } else {
        let l1 = lines[i];
        let l2 = lines[j];
        if strict_interior_crossing(l1, l2) {
            let rr = reg_insert(nodes, inter_point(l1, l2));
            let rec = CrossRec {
                i: i as usize,
                j: j as usize,
                t1: inter_t_pos(l1, l2) as i64,
                t2: inter_u_pos(l1, l2) as i64,
                den: inter_den_pos(l1, l2) as i64,
                node: rr.1 as usize,
            };
            cross_inner(lines, i, j + 1, rr.0, recs.push(rec))
        } else {
            cross_inner(lines, i, j + 1, nodes, recs)
        }
    }
}

/// Crossing collection, outer loop over the first line of each pair.
pub open spec fn cross_outer(
    lines: Seq<LineSeg>,
    i: int,
    nodes: Seq<Pt>,
    recs: Seq<CrossRec>,
) -> (Seq<Pt>, Seq<CrossRec>)
    decreases lines.len() - i when 0 <= i <= lines.len()
{
    if i >= lines.len() {
        (nodes, recs)
    } else {
        let inner = cross_inner(lines, i, i + 1, nodes, recs);
        cross_outer(lines, i + 1, inner.0, inner.1)
    }
}

pub open spec fn lines_in_range(lines: Seq<LineSeg>) -> bool {
    forall|i: int| 0 <= i < lines.len() ==> crate::geom::line_in_range(#[trigger] lines[i])
}

/// The spec view of a list of parameter rows.
pub open spec fn rows_view(pl: Vec<Vec<PN>>) -> Seq<Seq<PN>> {
    Seq::new(pl@.len(), |i: int| pl@[i]@)
}

/// The spec view of a per-node adjacency table.
pub open spec fn out_view(out: Vec<Vec<usize>>) -> Seq<Seq<usize>> {
    Seq::new(out@.len(), |i: int| out@[i]@)
}

/// Registers all endpoints of `lines` into `reg` and returns the initial
/// per-line parameter rows.
fn run_endpoints_phase(lines: &Vec<LineSeg>, reg: &mut IntersectionRegistry) -> (pl: Vec<Vec<PN>>)
    ensures
        (final(reg).nodes@, rows_view(pl)) == endpoints_phase(
            lines@,
            0,
            old(reg).nodes@,
            Seq::empty(),
        ),
        final(reg).nodes@.len() >= old(reg).nodes@.len(),
        nodes_distinct(old(reg).nodes@) ==> nodes_distinct(final(reg).nodes@),
        crate::poly::ring_in_range(old(reg).nodes@) && lines_in_range(lines@)
            ==> crate::poly::ring_in_range(final(reg).nodes@),
        forall|v: int, t: int|
            0 <= v < rows_view(pl).len() && 0 <= t < rows_view(pl)[v].len() ==> pn_ok(
                #[trigger] rows_view(pl)[v][t],
                final(reg).nodes@.len() as int,
            ),
{
    let mut pl: Vec<Vec<PN>> = Vec::new();
    let n = lines.len();
    proof {
        assert(rows_view(pl) =~= Seq::<Seq<PN>>::empty());
    }
    let mut i: usize = 0;
    while i < n
        invariant
            n == lines@.len(),
            i <= n,
            endpoints_phase(lines@, i as int, reg.nodes@, rows_view(pl)) == endpoints_phase(
                lines@,
                0,
                old(reg).nodes@,
                Seq::empty(),
            ),
            reg.nodes@.len() >= old(reg).nodes@.len(),
            nodes_distinct(old(reg).nodes@) ==> nodes_distinct(reg.nodes@),
            crate::poly::ring_in_range(old(reg).nodes@) && lines_in_range(lines@)
                ==> crate::poly::ring_in_range(reg.nodes@),
            forall|v: int, t: int|
                0 <= v < rows_view(pl).len() && 0 <= t < rows_view(pl)[v].len() ==> pn_ok(
                    #[trigger] rows_view(pl)[v][t],
                    reg.nodes@.len() as int,
                ),
        decreases n - i,
    {
        let ghost nodes0 = reg.nodes@;
        let ghost pl0 = rows_view(pl);
        let l = lines[i];
        let n0 = reg.get_or_insert(l.a);
        let n1 = reg.get_or_insert(l.b);
        let mut row: Vec<PN> = Vec::new();
        row.push(PN { num: 0, den: 1, node: n0 });
        row.push(PN { num: 1, den: 1, node: n1 });
        proof {
            assert(row@ =~= seq![PN { num: 0, den: 1, node: n0 }, PN { num: 1, den: 1, node: n1 }]);
        }
        pl.push(row);
        i += 1;
        proof {
            assert(rows_view(pl) =~= pl0.push(row@));
        }
    }
    pl
}

/// Collects every strictly interior pairwise crossing, registering each
/// crossing point as a shared node, in deterministic pair order.
fn run_cross_phase(lines: &Vec<LineSeg>, reg: &mut IntersectionRegistry) -> (recs: Vec<CrossRec>)
    requires
        lines_in_range(lines@),
    ensures
        (final(reg).nodes@, recs@) == cross_outer(lines@, 0, old(reg).nodes@, Seq::empty()),
        final(reg).nodes@.len() >= old(reg).nodes@.len(),
        nodes_distinct(old(reg).nodes@) ==> nodes_distinct(final(reg).nodes@),
        crate::poly::ring_in_range(old(reg).nodes@) ==> crate::poly::ring_in_range(
            final(reg).nodes@,
        ),
        forall|t: int|
            0 <= t < recs@.len() ==> ((#[trigger] recs@[t]).node as int) < final(reg).nodes@.len()
                && recs@[t].den > 0,
{
    let mut recs: Vec<CrossRec> = Vec::new();
    let n = lines.len();
    let mut i: usize = 0;
    while i < n
        invariant
            lines_in_range(lines@),
            n == lines@.len(),
            i <= n,
            cross_outer(lines@, i as int, reg.nodes@, recs@) == cross_outer(
                lines@,
                0,
                old(reg).nodes@,
                Seq::empty(),
            ),
            reg.nodes@.len() >= old(reg).nodes@.len(),
            nodes_distinct(old(reg).nodes@) ==> nodes_distinct(reg.nodes@),
            crate::poly::ring_in_range(old(reg).nodes@) ==> crate::poly::ring_in_range(reg.nodes@),
            forall|t: int|
                0 <= t < recs@.len() ==> ((#[trigger] recs@[t]).node as int) < reg.nodes@.len()
                    && recs@[t].den > 0,
        decreases n - i,
    {
        let mut j: usize = i + 1;
        while j < n
            invariant
                lines_in_range(lines@),
                n == lines@.len(),
                i < n,
                i + 1 <= j <= n,
                cross_outer(
                    lines@,
                    i as int + 1,
                    cross_inner(lines@, i as int, j as int, reg.nodes@, recs@).0,
                    cross_inner(lines@, i as int, j as int, reg.nodes@, recs@).1,
                ) == cross_outer(lines@, 0, old(reg).nodes@, Seq::empty()),
                reg.nodes@.len() >= old(reg).nodes@.len(),
                nodes_distinct(old(reg).nodes@) ==> nodes_distinct(reg.nodes@),
                crate::poly::ring_in_range(old(reg).nodes@) ==> crate::poly::ring_in_range(
                    reg.nodes@,
                ),
                forall|t: int|
                    0 <= t < recs@.len() ==> ((#[trigger] recs@[t]).node as int) < reg.nodes@.len()
                        && recs@[t].den > 0,
            decreases n - j,
        {
            let l1 = lines[i];
            let l2 = lines[j];
            if let Some(c) = line_intersection(&l1, &l2) {
                let node = reg.get_or_insert(c.p);
                recs.push(
                    CrossRec { i, j, t1: c.t1_num, t2: c.t2_num, den: c.den, node },
                );
            }
            j += 1;
        }
        i += 1;
    }
    recs
}

/// Strict parametric order of two registered points along one line.
pub open spec fn pn_lt(x: PN, y: PN) -> bool {
    crate::poly::frac_lt(x.num as int, x.den as int, y.num as int, y.den as int)
}

/// Insertion position of `x` in `t`: after every element whose parameter is
/// less than or equal, so ties keep their discovery order (a stable sort).
pub open spec fn ins_pos(t: Seq<PN>, x: PN) -> int
    decreases t.len(),
{
    if t.len() == 0 {
        0
    } else if pn_lt(x, t.first()) {
        0
    } else {
        1 + ins_pos(t.drop_first(), x)
    }
}

pub open spec fn stable_insert(t: Seq<PN>, x: PN) -> Seq<PN> {
    t.insert(ins_pos(t, x), x)
}

/// Stable insertion sort of a parameter row.
pub open spec fn sort_by_param(s: Seq<PN>) -> Seq<PN>
    decreases s.len(),
{
    if s.len() == 0 {
        Seq::empty()
    } else {
        stable_insert(sort_by_param(s.drop_last()), s.last())
    }
}

proof fn lemma_ins_pos_range(t: Seq<PN>, x: PN)
    ensures
        0 <= ins_pos(t, x) <= t.len(),
    decreases t.len(),
{
    if t.len() > 0 && !pn_lt(x, t.first()) {
        lemma_ins_pos_range(t.drop_first(), x);
    }
}

/// The scan that stops at the first strictly larger element finds exactly
/// the stable insertion position.
proof fn lemma_ins_pos_char(t: Seq<PN>, x: PN, i: int)
    requires
        0 <= i <= t.len(),
        forall|k: int| 0 <= k < i ==> !pn_lt(x, #[trigger] t[k]),
        i == t.len() || pn_lt(x, t[i]),
    ensures
        ins_pos(t, x) == i,
    decreases t.len(),
{
    if t.len() > 0 {
        if i == 0 {
        } else {
            assert(!pn_lt(x, t.first()));
            lemma_ins_pos_char(t.drop_first(), x, i - 1);
        }
    }
}

fn find_ins_pos(t: &Vec<PN>, x: PN) -> (pos: usize)
    requires
        forall|k: int| 0 <= k < t@.len() ==> (#[trigger] t@[k]).den > 0,
        x.den > 0,
    ensures
        pos as int == ins_pos(t@, x),
        pos <= t@.len(),
{
    let n = t.len();
    let mut i: usize = 0;
    while i < n
        invariant
            forall|k: int| 0 <= k < t@.len() ==> (#[trigger] t@[k]).den > 0,
            x.den > 0,
            n == t@.len(),
            i <= n,
            forall|k: int| 0 <= k < i ==> !pn_lt(x, #[trigger] t@[k]),
        decreases n - i,
    {
        let e = t[i];
        if crate::poly::frac_lt_e(x.num, x.den, e.num, e.den) {
            proof {
                lemma_ins_pos_char(t@, x, i as int);
            }
            return i;
        }
        i += 1;
    }
    proof {
        lemma_ins_pos_char(t@, x, n as int);
    }
    n
}

/// Stable insertion sort of a row, ascending by exact parameter.
fn sorted_by_param(src: &Vec<PN>) -> (out: Vec<PN>)
    requires
        forall|k: int| 0 <= k < src@.len() ==> (#[trigger] src@[k]).den > 0,
    ensures
        out@ == sort_by_param(src@),
        forall|k: int| 0 <= k < out@.len() ==> (#[trigger] out@[k]).den > 0,
        out@.len() == src@.len(),
{
    let n = src.len();
    let mut out: Vec<PN> = Vec::new();
    proof {
        assert(src@.take(0) =~= Seq::<PN>::empty());
    }
    let mut m: usize = 0;
    while m < n
        invariant
            forall|k: int| 0 <= k < src@.len() ==> (#[trigger] src@[k]).den > 0,
            n == src@.len(),
            m <= n,
            out@ == sort_by_param(src@.take(m as int)),
            forall|k: int| 0 <= k < out@.len() ==> (#[trigger] out@[k]).den > 0,
            out@.len() == m,
        decreases n - m,
    {
        let x = src[m];
        let ghost out0 = out@;
        let pos = find_ins_pos(&out, x);
        out.insert(pos, x);
        m += 1;
        proof {
            lemma_ins_pos_range(out0, x);
            assert(src@.take(m as int).drop_last() =~= src@.take(m as int - 1));
            assert(out@ == stable_insert(out0, x));
            assert forall|k: int| 0 <= k < out@.len() implies (#[trigger] out@[k]).den > 0 by {
                assert(out@ == out0.insert(ins_pos(out0, x), x));
            }
        }
    }
    proof {
        assert(src@.take(n as int) =~= src@);
    }
    out
}

/// The crossings of `recs` that involve line `k`, appended to `row` with
/// their parameter along line `k`, in discovery order.
pub open spec fn row_with_crossings(recs: Seq<CrossRec>, k: int, m: int, row: Seq<PN>) -> Seq<PN>
    decreases recs.len() - m when 0 <= m <= recs.len()
{
    if m >= recs.len() {
        row
    } else {
        let r = recs[m];
        let row1 = if r.i == k {
            row.push(PN { num: r.t1, den: r.den, node: r.node })
        } else if r.j == k {
            row.push(PN { num: r.t2, den: r.den, node: r.node })
        } else {
            row
        };
        row_with_crossings(recs, k, m + 1, row1)
    }
}

/// Consecutive duplicate node ids collapsed (a crossing registered at the
/// same node as a neighbouring point splits nothing).
pub open spec fn dedup_nodes(s: Seq<PN>, m: int, acc: Seq<PN>) -> Seq<PN>
    decreases s.len() - m when 0 <= m <= s.len()
{
    if m >= s.len() {
        acc
    } else {
        let acc1 = if acc.len() == 0 || acc.last().node != s[m].node {
            acc.push(s[m])
        } else {
            acc
        };
        dedup_nodes(s, m + 1, acc1)
    }
}

/// One segment per consecutive pair of distinct registered nodes.
pub open spec fn segs_of_row(c: Seq<PN>, m: int, segs: Seq<Seg>) -> Seq<Seg>
    decreases c.len() - m when 0 <= m
{
    if m + 1 >= c.len() {
        segs
    } else {
        let segs1 = if c[m].node != c[m + 1].node {
            segs.push(Seg { a: c[m].node, b: c[m + 1].node })
        } else {
            segs
        };
        segs_of_row(c, m + 1, segs1)
    }
}

/// The full per-line split: each line's registered points sorted by
/// parameter, deduplicated, and turned into segments.
pub open spec fn split_phase(recs: Seq<CrossRec>, pl: Seq<Seq<PN>>, k: int, segs: Seq<Seg>) -> Seq<
    Seg,
>
    decreases pl.len() - k when 0 <= k <= pl.len()
{
    if k >= pl.len() {
        segs
    } else {
        let row = row_with_crossings(recs, k, 0, pl[k]);
        let compact = dedup_nodes(sort_by_param(row), 0, Seq::empty());
        split_phase(recs, pl, k + 1, segs_of_row(compact, 0, segs))
    }
}

/// Builds the sorted, deduplicated point row of line `k` and appends its
/// segments.
fn run_line_split(recs: &Vec<CrossRec>, base: &Vec<PN>, k: usize, segs: &mut Vec<Seg>)
    requires
        forall|m: int| 0 <= m < base@.len() ==> (#[trigger] base@[m]).den > 0,
        forall|m: int| 0 <= m < recs@.len() ==> (#[trigger] recs@[m]).den > 0,
    ensures
        final(segs)@ == segs_of_row(
            dedup_nodes(sort_by_param(row_with_crossings(recs@, k as int, 0, base@)), 0, Seq::empty()),
            0,
            old(segs)@,
        ),
{
    // collect the registered points of line `k`
    let mut row: Vec<PN> = Vec::new();
    let nb = base.len();
    let mut m: usize = 0;
    while m < nb
        invariant
            forall|i: int| 0 <= i < base@.len() ==> (#[trigger] base@[i]).den > 0,
            nb == base@.len(),
            m <= nb,
            row@ == base@.take(m as int),
        decreases nb - m,
    {
        row.push(base[m]);
        m += 1;
        proof {
            assert(base@.take(m as int) =~= base@.take(m as int - 1).push(base@[m - 1]));
        }
    }
    proof {
        assert(row@ =~= base@);
    }
    let nr = recs.len();
    let mut m2: usize = 0;
    while m2 < nr
        invariant
            forall|i: int| 0 <= i < recs@.len() ==> (#[trigger] recs@[i]).den > 0,
            forall|i: int| 0 <= i < row@.len() ==> (#[trigger] row@[i]).den > 0,
            nr == recs@.len(),
            m2 <= nr,
            row_with_crossings(recs@, k as int, m2 as int, row@) == row_with_crossings(
                recs@,
                k as int,
                0,
                base@,
            ),
        decreases nr - m2,
    {
        let r = recs[m2];
        if r.i == k {
            row.push(PN { num: r.t1, den: r.den, node: r.node });
        } else if r.j == k {
            row.push(PN { num: r.t2, den: r.den, node: r.node });
        }
        m2 += 1;
    }
    // sort by exact parameter, stably
    let sorted = sorted_by_param(&row);
    // collapse consecutive duplicates
    let mut compact: Vec<PN> = Vec::new();
    let ns = sorted.len();
    let mut m3: usize = 0;
    while m3 < ns
        invariant
            ns == sorted@.len(),
            m3 <= ns,
            dedup_nodes(sorted@, m3 as int, compact@) == dedup_nodes(sorted@, 0, Seq::empty()),
        decreases ns - m3,
    {
        let x = sorted[m3];
        let push = if compact.len() == 0 {
            true
        } else {
            compact[compact.len() - 1].node != x.node
        };
        if push {
            compact.push(x);
        }
        m3 += 1;
    }
    // one segment per consecutive pair of distinct nodes
    let nc = compact.len();
    if nc >= 1 {
        let mut m4: usize = 0;
        while m4 < nc - 1
            invariant
                nc == compact@.len(),
                nc >= 1,
                m4 <= nc - 1,
                segs_of_row(compact@, m4 as int, segs@) == segs_of_row(compact@, 0, old(segs)@),
            decreases nc - m4,
        {
            let a = compact[m4].node;
            let b = compact[m4 + 1].node;
            if a != b {
                segs.push(Seg { a, b });
            }
            m4 += 1;
        }
    }
}

/// Two directed half-edges per segment, in segment order.
pub open spec fn hes_phase(segs: Seq<Seg>, m: int, hes: Seq<HalfEdge>) -> Seq<HalfEdge>
    decreases segs.len() - m when 0 <= m <= segs.len()
{
    if m >= segs.len() {
        hes
    } else {
        let h1 = HalfEdge { from: segs[m].a, to: segs[m].b, seg: m as usize };
        let h2 = HalfEdge { from: segs[m].b, to: segs[m].a, seg: m as usize };
        hes_phase(segs, m + 1, hes.push(h1).push(h2))
    }
}

/// The segment ids incident to node `n`, in ascending order.
pub open spec fn sectors_of(segs: Seq<Seg>, n: int, m: int, acc: Seq<usize>) -> Seq<usize>
    decreases segs.len() - m when 0 <= m <= segs.len()
{
    if m >= segs.len() {
        acc
    } else {
        let acc1 = if segs[m].a == n || segs[m].b == n {
            acc.push(m as usize)
        } else {
            acc
        };
        sectors_of(segs, n, m + 1, acc1)
    }
}

/// The half-edge ids leaving node `n`, in ascending order.
pub open spec fn outgoing_of(hes: Seq<HalfEdge>, n: int, m: int, acc: Seq<usize>) -> Seq<usize>
    decreases hes.len() - m when 0 <= m <= hes.len()
{
    if m >= hes.len() {
        acc
    } else {
        let acc1 = if hes[m].from == n {
            acc.push(m as usize)
        } else {
            acc
        };
        outgoing_of(hes, n, m + 1, acc1)
    }
}

pub open spec fn hes_ok(hes: Seq<HalfEdge>, n_nodes: int) -> bool {
    forall|k: int|
        0 <= k < hes.len() ==> (#[trigger] hes[k]).from < n_nodes && hes[k].to < n_nodes
}

/// Half-edge `a` points in a strictly earlier radial direction than `b`,
/// judged from their (common) source node.
pub open spec fn he_dir_lt(hes: Seq<HalfEdge>, nodes: Seq<Pt>, a: usize, b: usize) -> bool {
    let ha = hes[a as int];
    let hb = hes[b as int];
    crate::geom::dir_lt(
        nodes[ha.to as int].x - nodes[ha.from as int].x,
        nodes[ha.to as int].y - nodes[ha.from as int].y,
        nodes[hb.to as int].x - nodes[hb.from as int].x,
        nodes[hb.to as int].y - nodes[hb.from as int].y,
    )
}

pub open spec fn he_ins_pos(hes: Seq<HalfEdge>, nodes: Seq<Pt>, t: Seq<usize>, x: usize) -> int
    decreases t.len(),
{
    if t.len() == 0 {
        0
    } else if he_dir_lt(hes, nodes, x, t.first()) {
        0
    } else {
        1 + he_ins_pos(hes, nodes, t.drop_first(), x)
    }
}

pub open spec fn he_stable_insert(hes: Seq<HalfEdge>, nodes: Seq<Pt>, t: Seq<usize>, x: usize) -> Seq<
    usize,
> {
    t.insert(he_ins_pos(hes, nodes, t, x), x)
}

/// Stable insertion sort of outgoing half-edge ids by radial direction.
pub open spec fn sort_by_dir(hes: Seq<HalfEdge>, nodes: Seq<Pt>, s: Seq<usize>) -> Seq<usize>
    decreases s.len(),
{
    if s.len() == 0 {
        Seq::empty()
    } else {
        he_stable_insert(hes, nodes, sort_by_dir(hes, nodes, s.drop_last()), s.last())
    }
}

proof fn lemma_he_ins_pos_range(hes: Seq<HalfEdge>, nodes: Seq<Pt>, t: Seq<usize>, x: usize)
    ensures
        0 <= he_ins_pos(hes, nodes, t, x) <= t.len(),
    decreases t.len(),
{
    if t.len() > 0 && !he_dir_lt(hes, nodes, x, t.first()) {
        lemma_he_ins_pos_range(hes, nodes, t.drop_first(), x);
    }
}

proof fn lemma_he_ins_pos_char(hes: Seq<HalfEdge>, nodes: Seq<Pt>, t: Seq<usize>, x: usize, i: int)
    requires
        0 <= i <= t.len(),
        forall|k: int| 0 <= k < i ==> !he_dir_lt(hes, nodes, x, #[trigger] t[k]),
        i == t.len() || he_dir_lt(hes, nodes, x, t[i]),
    ensures
        he_ins_pos(hes, nodes, t, x) == i,
    decreases t.len(),
{
    if t.len() > 0 {
        if i == 0 {
        } else {
            lemma_he_ins_pos_char(hes, nodes, t.drop_first(), x, i - 1);
        }
    }
}

fn he_dir_lt_e(hes: &Vec<HalfEdge>, nodes: &Vec<Pt>, a: usize, b: usize) -> (r: bool)
    requires
        hes_ok(hes@, nodes@.len() as int),
        crate::poly::ring_in_range(nodes@),
        (a as int) < hes@.len(),
        (b as int) < hes@.len(),
    ensures
        r == he_dir_lt(hes@, nodes@, a, b),
{
    let ha = hes[a];
    let hb = hes[b];
    let oa = nodes[ha.from];
    let ta = nodes[ha.to];
    let ob = nodes[hb.from];
    let tb = nodes[hb.to];
    crate::geom::dir_lt_e(ta.x - oa.x, ta.y - oa.y, tb.x - ob.x, tb.y - ob.y)
}

fn he_find_ins_pos(hes: &Vec<HalfEdge>, nodes: &Vec<Pt>, t: &Vec<usize>, x: usize) -> (pos: usize)
    requires
        hes_ok(hes@, nodes@.len() as int),
        crate::poly::ring_in_range(nodes@),
        (x as int) < hes@.len(),
        forall|k: int| 0 <= k < t@.len() ==> (#[trigger] t@[k]) < hes@.len(),
    ensures
        pos as int == he_ins_pos(hes@, nodes@, t@, x),
        pos <= t@.len(),
{
    let n = t.len();
    let mut i: usize = 0;
    while i < n
        invariant
            hes_ok(hes@, nodes@.len() as int),
            crate::poly::ring_in_range(nodes@),
            (x as int) < hes@.len(),
            forall|k: int| 0 <= k < t@.len() ==> (#[trigger] t@[k]) < hes@.len(),
            n == t@.len(),
            i <= n,
            forall|k: int| 0 <= k < i ==> !he_dir_lt(hes@, nodes@, x, #[trigger] t@[k]),
        decreases n - i,
    {
        let e = t[i];
        if he_dir_lt_e(hes, nodes, x, e) {
            proof {
                lemma_he_ins_pos_char(hes@, nodes@, t@, x, i as int);
            }
            return i;
        }
        i += 1;
    }
    proof {
        lemma_he_ins_pos_char(hes@, nodes@, t@, x, n as int);
    }
    n
}

/// Stable insertion sort of a node's outgoing half-edge ids by radial
/// direction.
fn sorted_by_dir(hes: &Vec<HalfEdge>, nodes: &Vec<Pt>, src: &Vec<usize>) -> (out: Vec<usize>)
    requires
        hes_ok(hes@, nodes@.len() as int),
        crate::poly::ring_in_range(nodes@),
        forall|k: int| 0 <= k < src@.len() ==> (#[trigger] src@[k]) < hes@.len(),
    ensures
        out@ == sort_by_dir(hes@, nodes@, src@),
        forall|k: int| 0 <= k < out@.len() ==> (#[trigger] out@[k]) < hes@.len(),
        out@.len() == src@.len(),
{
    let n = src.len();
    let mut out: Vec<usize> = Vec::new();
    proof {
        assert(src@.take(0) =~= Seq::<usize>::empty());
    }
    let mut m: usize = 0;
    while m < n
        invariant
            hes_ok(hes@, nodes@.len() as int),
            crate::poly::ring_in_range(nodes@),
            forall|k: int| 0 <= k < src@.len() ==> (#[trigger] src@[k]) < hes@.len(),
            n == src@.len(),
            m <= n,
            out@ == sort_by_dir(hes@, nodes@, src@.take(m as int)),
            forall|k: int| 0 <= k < out@.len() ==> (#[trigger] out@[k]) < hes@.len(),
            out@.len() == m,
        decreases n - m,
    {
        let x = src[m];
        let ghost out0 = out@;
        let pos = he_find_ins_pos(hes, nodes, &out, x);
        out.insert(pos, x);
        m += 1;
        proof {
            lemma_he_ins_pos_range(hes@, nodes@, out0, x);
            assert(src@.take(m as int).drop_last() =~= src@.take(m as int - 1));
            assert(out@ == he_stable_insert(hes@, nodes@, out0, x));
            assert forall|k: int| 0 <= k < out@.len() implies (#[trigger] out@[k]) < hes@.len() by {
                assert(out@ == out0.insert(he_ins_pos(hes@, nodes@, out0, x), x));
            }
        }
    }
    proof {
        assert(src@.take(n as int) =~= src@);
    }
    out
}

/// A registered point is valid for a node count: its node id exists and its
/// parameter denominator is positive.
pub open spec fn pn_ok(x: PN, n_nodes: int) -> bool {
    (x.node as int) < n_nodes && x.den > 0
}

proof fn lemma_row_crossings_ok(recs: Seq<CrossRec>, k: int, m: int, row: Seq<PN>, n_nodes: int)
    requires
        0 <= m <= recs.len(),
        forall|t: int| 0 <= t < row.len() ==> pn_ok(#[trigger] row[t], n_nodes),
        forall|t: int|
            0 <= t < recs.len() ==> ((#[trigger] recs[t]).node as int) < n_nodes && recs[t].den > 0,
    ensures
        ({
            let r = row_with_crossings(recs, k, m, row);
            forall|t: int| 0 <= t < r.len() ==> pn_ok(#[trigger] r[t], n_nodes)
        }),
    decreases recs.len() - m,
{
    if m < recs.len() {
        let r = recs[m];
        let row1 = if r.i == k {
            row.push(PN { num: r.t1, den: r.den, node: r.node })
        } else if r.j == k {
            row.push(PN { num: r.t2, den: r.den, node: r.node })
        } else {
            row
        };
        lemma_row_crossings_ok(recs, k, m + 1, row1, n_nodes);
        assert(row_with_crossings(recs, k, m, row) == row_with_crossings(recs, k, m + 1, row1));
    }
}

proof fn lemma_sort_param_ok(s: Seq<PN>, n_nodes: int)
    requires
        forall|t: int| 0 <= t < s.len() ==> pn_ok(#[trigger] s[t], n_nodes),
    ensures
        sort_by_param(s).len() == s.len(),
        forall|t: int|
            0 <= t < sort_by_param(s).len() ==> pn_ok(#[trigger] sort_by_param(s)[t], n_nodes),
    decreases s.len(),
{
    if s.len() > 0 {
        lemma_sort_param_ok(s.drop_last(), n_nodes);
        let sorted = sort_by_param(s.drop_last());
        let x = s.last();
        lemma_ins_pos_range(sorted, x);
        sorted.insert_ensures(ins_pos(sorted, x), x);
    }
}

proof fn lemma_dedup_ok(s: Seq<PN>, m: int, acc: Seq<PN>, n_nodes: int)
    requires
        0 <= m <= s.len(),
        forall|t: int| 0 <= t < s.len() ==> pn_ok(#[trigger] s[t], n_nodes),
        forall|t: int| 0 <= t < acc.len() ==> pn_ok(#[trigger] acc[t], n_nodes),
    ensures
        ({
            let r = dedup_nodes(s, m, acc);
            forall|t: int| 0 <= t < r.len() ==> pn_ok(#[trigger] r[t], n_nodes)
        }),
    decreases s.len() - m,
{
    if m < s.len() {
        let acc1 = if acc.len() == 0 || acc.last().node != s[m].node {
            acc.push(s[m])
        } else {
            acc
        };
        lemma_dedup_ok(s, m + 1, acc1, n_nodes);
        assert(dedup_nodes(s, m, acc) == dedup_nodes(s, m + 1, acc1));
    }
}

/// A segment is valid for a node count: both endpoints exist and differ.
pub open spec fn seg_ok(s: Seg, n_nodes: int) -> bool {
    (s.a as int) < n_nodes && (s.b as int) < n_nodes && s.a != s.b
}

proof fn lemma_segs_of_row_ok(c: Seq<PN>, m: int, segs: Seq<Seg>, n_nodes: int)
    requires
        0 <= m,
        forall|t: int| 0 <= t < c.len() ==> pn_ok(#[trigger] c[t], n_nodes),
        forall|t: int| 0 <= t < segs.len() ==> seg_ok(#[trigger] segs[t], n_nodes),
    ensures
        ({
            let r = segs_of_row(c, m, segs);
            forall|t: int| 0 <= t < r.len() ==> seg_ok(#[trigger] r[t], n_nodes)
        }),
    decreases c.len() - m,
{
    if m + 1 < c.len() {
        let segs1 = if c[m].node != c[m + 1].node {
            segs.push(Seg { a: c[m].node, b: c[m + 1].node })
        } else {
            segs
        };
        lemma_segs_of_row_ok(c, m + 1, segs1, n_nodes);
        assert(segs_of_row(c, m, segs) == segs_of_row(c, m + 1, segs1));
    }
}

proof fn lemma_split_phase_ok(
    recs: Seq<CrossRec>,
    pl: Seq<Seq<PN>>,
    k: int,
    segs: Seq<Seg>,
    n_nodes: int,
)
    requires
        0 <= k <= pl.len(),
        forall|v: int, t: int|
            0 <= v < pl.len() && 0 <= t < pl[v].len() ==> pn_ok(#[trigger] pl[v][t], n_nodes),
        forall|t: int|
            0 <= t < recs.len() ==> ((#[trigger] recs[t]).node as int) < n_nodes && recs[t].den > 0,
        forall|t: int| 0 <= t < segs.len() ==> seg_ok(#[trigger] segs[t], n_nodes),
    ensures
        ({
            let r = split_phase(recs, pl, k, segs);
            forall|t: int| 0 <= t < r.len() ==> seg_ok(#[trigger] r[t], n_nodes)
        }),
    decreases pl.len() - k,
{
    if k < pl.len() {
        let row = row_with_crossings(recs, k, 0, pl[k]);
        lemma_row_crossings_ok(recs, k, 0, pl[k], n_nodes);
        lemma_sort_param_ok(row, n_nodes);
        lemma_dedup_ok(sort_by_param(row), 0, Seq::empty(), n_nodes);
        let compact = dedup_nodes(sort_by_param(row), 0, Seq::empty());
        lemma_segs_of_row_ok(compact, 0, segs, n_nodes);
        lemma_split_phase_ok(recs, pl, k + 1, segs_of_row(compact, 0, segs), n_nodes);
        assert(split_phase(recs, pl, k, segs) == split_phase(
            recs,
            pl,
            k + 1,
            segs_of_row(compact, 0, segs),
        ));
    }
}

/// A half-edge is valid for the counts: endpoints exist and differ, and its
/// segment id exists.
pub open spec fn he_ok(h: HalfEdge, n_nodes: int, n_segs: int) -> bool {
    (h.from as int) < n_nodes && (h.to as int) < n_nodes && h.from != h.to && (h.seg as int)
        < n_segs
}

proof fn lemma_hes_phase_ok(segs: Seq<Seg>, m: int, hes: Seq<HalfEdge>, n_nodes: int)
    requires
        0 <= m <= segs.len(),
        forall|t: int| 0 <= t < segs.len() ==> seg_ok(#[trigger] segs[t], n_nodes),
        forall|t: int| 0 <= t < hes.len() ==> he_ok(#[trigger] hes[t], n_nodes, segs.len() as int),
        hes.len() == 2 * m,
    ensures
        ({
            let r = hes_phase(segs, m, hes);
            &&& r.len() == 2 * segs.len()
            &&& forall|t: int| 0 <= t < r.len() ==> he_ok(#[trigger] r[t], n_nodes, segs.len() as int)
        }),
    decreases segs.len() - m,
{
    if m < segs.len() {
        let h1 = HalfEdge { from: segs[m].a, to: segs[m].b, seg: m as usize };
        let h2 = HalfEdge { from: segs[m].b, to: segs[m].a, seg: m as usize };
        lemma_hes_phase_ok(segs, m + 1, hes.push(h1).push(h2), n_nodes);
        assert(hes_phase(segs, m, hes) == hes_phase(segs, m + 1, hes.push(h1).push(h2)));
    }
}

proof fn lemma_sectors_of_ok(segs: Seq<Seg>, n: int, m: int, acc: Seq<usize>)
    requires
        0 <= m <= segs.len(),
        forall|t: int| 0 <= t < acc.len() ==> ((#[trigger] acc[t]) as int) < segs.len(),
    ensures
        ({
            let r = sectors_of(segs, n, m, acc);
            forall|t: int| 0 <= t < r.len() ==> ((#[trigger] r[t]) as int) < segs.len()
        }),
    decreases segs.len() - m,
{
    if m < segs.len() {
        let acc1 = if segs[m].a == n || segs[m].b == n {
            acc.push(m as usize)
        } else {
            acc
        };
        lemma_sectors_of_ok(segs, n, m + 1, acc1);
        assert(sectors_of(segs, n, m, acc) == sectors_of(segs, n, m + 1, acc1));
    }
}

proof fn lemma_outgoing_of_ok(hes: Seq<HalfEdge>, n: int, m: int, acc: Seq<usize>)
    requires
        0 <= m <= hes.len(),
        hes.len() <= usize::MAX,
        forall|t: int|
            0 <= t < acc.len() ==> ((#[trigger] acc[t]) as int) < hes.len() && (hes[acc[t] as int].from
                as int) == n,
    ensures
        ({
            let r = outgoing_of(hes, n, m, acc);
            forall|t: int|
                0 <= t < r.len() ==> ((#[trigger] r[t]) as int) < hes.len() && (hes[r[t] as int].from
                    as int) == n
        }),
    decreases hes.len() - m,
{
    if m < hes.len() {
        let acc1 = if hes[m].from == n {
            acc.push(m as usize)
        } else {
            acc
        };
        lemma_outgoing_of_ok(hes, n, m + 1, acc1);
        assert(outgoing_of(hes, n, m, acc) == outgoing_of(hes, n, m + 1, acc1));
    }
}

proof fn lemma_sort_dir_ok(hes: Seq<HalfEdge>, nodes: Seq<Pt>, s: Seq<usize>, n: int)
    requires
        forall|t: int|
            0 <= t < s.len() ==> ((#[trigger] s[t]) as int) < hes.len() && (hes[s[t] as int].from
                as int) == n,
    ensures
        sort_by_dir(hes, nodes, s).len() == s.len(),
        ({
            let r = sort_by_dir(hes, nodes, s);
            forall|t: int|
                0 <= t < r.len() ==> ((#[trigger] r[t]) as int) < hes.len() && (hes[r[t] as int].from
                    as int) == n
        }),
    decreases s.len(),
{
    if s.len() > 0 {
        lemma_sort_dir_ok(hes, nodes, s.drop_last(), n);
        let sorted = sort_by_dir(hes, nodes, s.drop_last());
        let x = s.last();
        lemma_he_ins_pos_range(hes, nodes, sorted, x);
        sorted.insert_ensures(he_ins_pos(hes, nodes, sorted, x), x);
    }
}

/// Every half-edge's direction vector is nonzero (its endpoints sit at
/// distinct coordinates).
pub open spec fn he_dirs_nonzero(hes: Seq<HalfEdge>, nodes: Seq<Pt>) -> bool {
    forall|k: int|
        0 <= k < hes.len() ==> !(nodes[(#[trigger] hes[k]).to as int].x - nodes[hes[k].from as int].x
            == 0 && nodes[hes[k].to as int].y - nodes[hes[k].from as int].y == 0)
}

/// The list is in non-decreasing radial order.
pub open spec fn radially_sorted(hes: Seq<HalfEdge>, nodes: Seq<Pt>, s: Seq<usize>) -> bool {
    forall|i: int, j: int|
        0 <= i < j < s.len() ==> !he_dir_lt(hes, nodes, #[trigger] s[j], #[trigger] s[i])
}

/// The stable insertion position splits the list into a prefix not after
/// `x` and a suffix strictly after it.
proof fn lemma_he_ins_pos_props(hes: Seq<HalfEdge>, nodes: Seq<Pt>, t: Seq<usize>, x: usize)
    ensures
        forall|k: int|
            0 <= k < he_ins_pos(hes, nodes, t, x) ==> !he_dir_lt(hes, nodes, x, #[trigger] t[k]),
        he_ins_pos(hes, nodes, t, x) < t.len() ==> he_dir_lt(
            hes,
            nodes,
            x,
            t[he_ins_pos(hes, nodes, t, x)],
        ),
    decreases t.len(),
{
    if t.len() > 0 && !he_dir_lt(hes, nodes, x, t.first()) {
        lemma_he_ins_pos_props(hes, nodes, t.drop_first(), x);
        lemma_he_ins_pos_range(hes, nodes, t.drop_first(), x);
        assert forall|k: int|
            0 <= k < he_ins_pos(hes, nodes, t, x) implies !he_dir_lt(hes, nodes, x, #[trigger] t[k]) by {
            if k > 0 {
                assert(t[k] == t.drop_first()[k - 1]);
            }
        }
    }
}

/// Inserting an element at its stable position keeps the list radially
/// sorted.
proof fn lemma_he_stable_insert_sorted(hes: Seq<HalfEdge>, nodes: Seq<Pt>, t: Seq<usize>, x: usize)
    requires
        hes_ok(hes, nodes.len() as int),
        he_dirs_nonzero(hes, nodes),
        (x as int) < hes.len(),
        forall|k: int| 0 <= k < t.len() ==> ((#[trigger] t[k]) as int) < hes.len(),
        radially_sorted(hes, nodes, t),
    ensures
        radially_sorted(hes, nodes, he_stable_insert(hes, nodes, t, x)),
{
    let p = he_ins_pos(hes, nodes, t, x);
    lemma_he_ins_pos_range(hes, nodes, t, x);
    lemma_he_ins_pos_props(hes, nodes, t, x);
    let r = he_stable_insert(hes, nodes, t, x);
    t.insert_ensures(p, x);
    assert forall|i: int, j: int|
        0 <= i < j < r.len() implies !he_dir_lt(hes, nodes, #[trigger] r[j], #[trigger] r[i]) by {
        if i < p && j < p {
            assert(r[i] == t[i] && r[j] == t[j]);
        } else if i < p && j == p {
            assert(r[i] == t[i] && r[j] == x);
            assert(!he_dir_lt(hes, nodes, x, t[i]));
        } else if i < p && j > p {
            assert(r[i] == t[i] && r[j] == t[j - 1]);
        } else if i == p && j > p {
            assert(r[i] == x && r[j] == t[j - 1]);
            if j - 1 == p {
                if he_dir_lt(hes, nodes, t[p], x) {
                    let hx = hes[x as int];
                    let ht = hes[t[p] as int];
                    crate::geom::lemma_dir_lt_asymm(
                        nodes[hx.to as int].x - nodes[hx.from as int].x,
                        nodes[hx.to as int].y - nodes[hx.from as int].y,
                        nodes[ht.to as int].x - nodes[ht.from as int].x,
                        nodes[ht.to as int].y - nodes[ht.from as int].y,
                    );
                }
            } else {
                // a strictly-after element cannot come radially before `x`:
                // that would contradict sortedness through transitivity
                if he_dir_lt(hes, nodes, t[j - 1], x) {
                    let ha = hes[t[j - 1] as int];
                    let hb = hes[x as int];
                    let hc = hes[t[p] as int];
                    crate::geom::lemma_dir_lt_trans(
                        nodes[ha.to as int].x - nodes[ha.from as int].x,
                        nodes[ha.to as int].y - nodes[ha.from as int].y,
                        nodes[hb.to as int].x - nodes[hb.from as int].x,
                        nodes[hb.to as int].y - nodes[hb.from as int].y,
                        nodes[hc.to as int].x - nodes[hc.from as int].x,
                        nodes[hc.to as int].y - nodes[hc.from as int].y,
                    );
                    assert(he_dir_lt(hes, nodes, t[j - 1], t[p]));
                }
            }
        } else {
            assert(r[i] == t[i - 1] && r[j] == t[j - 1]);
        }
    }
}

/// The radial insertion sort produces a radially sorted list.
pub proof fn lemma_sort_dir_radially_sorted(hes: Seq<HalfEdge>, nodes: Seq<Pt>, s: Seq<usize>)
    requires
        hes_ok(hes, nodes.len() as int),
        he_dirs_nonzero(hes, nodes),
        forall|k: int| 0 <= k < s.len() ==> ((#[trigger] s[k]) as int) < hes.len(),
    ensures
        radially_sorted(hes, nodes, sort_by_dir(hes, nodes, s)),
    decreases s.len(),
{
    if s.len() > 0 {
        lemma_sort_dir_radially_sorted(hes, nodes, s.drop_last());
        lemma_sort_dir_ok_elems(hes, nodes, s.drop_last());
        lemma_he_stable_insert_sorted(hes, nodes, sort_by_dir(hes, nodes, s.drop_last()), s.last());
    }
}

/// Sorting keeps every element a valid half-edge id.
proof fn lemma_sort_dir_ok_elems(hes: Seq<HalfEdge>, nodes: Seq<Pt>, s: Seq<usize>)
    requires
        forall|k: int| 0 <= k < s.len() ==> ((#[trigger] s[k]) as int) < hes.len(),
    ensures
        forall|k: int|
            0 <= k < sort_by_dir(hes, nodes, s).len() ==> ((#[trigger] sort_by_dir(hes, nodes, s)[k])
                as int) < hes.len(),
    decreases s.len(),
{
    if s.len() > 0 {
        lemma_sort_dir_ok_elems(hes, nodes, s.drop_last());
        let sorted = sort_by_dir(hes, nodes, s.drop_last());
        let x = s.last();
        lemma_he_ins_pos_range(hes, nodes, sorted, x);
        sorted.insert_ensures(he_ins_pos(hes, nodes, sorted, x), x);
    }
}

/// The node list after all registration, as a function of the input lines.
pub open spec fn built_nodes(lines: Seq<LineSeg>) -> Seq<Pt> {
    cross_outer(lines, 0, endpoints_phase(lines, 0, Seq::empty(), Seq::empty()).0, Seq::empty()).0
}

pub open spec fn built_rows(lines: Seq<LineSeg>) -> Seq<Seq<PN>> {
    endpoints_phase(lines, 0, Seq::empty(), Seq::empty()).1
}

pub open spec fn built_recs(lines: Seq<LineSeg>) -> Seq<CrossRec> {
    cross_outer(lines, 0, endpoints_phase(lines, 0, Seq::empty(), Seq::empty()).0, Seq::empty()).1
}

pub open spec fn built_segments(lines: Seq<LineSeg>) -> Seq<Seg> {
    split_phase(built_recs(lines), built_rows(lines), 0, Seq::empty())
}

pub open spec fn built_half_edges(lines: Seq<LineSeg>) -> Seq<HalfEdge> {
    hes_phase(built_segments(lines), 0, Seq::empty())
}

pub open spec fn built_sectors(lines: Seq<LineSeg>) -> Seq<Seq<usize>> {
    Seq::new(built_nodes(lines).len(), |v: int| sectors_of(built_segments(lines), v, 0, Seq::empty()))
}

pub open spec fn built_degree(lines: Seq<LineSeg>) -> Seq<usize> {
    Seq::new(built_nodes(lines).len(), |v: int| built_sectors(lines)[v].len() as usize)
}

pub open spec fn built_outgoing(lines: Seq<LineSeg>) -> Seq<Seq<usize>> {
    Seq::new(
        built_nodes(lines).len(),
        |v: int|
            sort_by_dir(
                built_half_edges(lines),
                built_nodes(lines),
                outgoing_of(built_half_edges(lines), v, 0, Seq::empty()),
            ),
    )
}

pub open spec fn built_prune(lines: Seq<LineSeg>) -> (Seq<bool>, Seq<usize>) {
    crate::prune::prune_run(
        built_half_edges(lines),
        built_outgoing(lines),
        crate::prune::seed_queue(built_degree(lines), 0, Seq::empty()),
        Seq::new(built_nodes(lines).len(), |v: int| true),
        built_degree(lines),
    )
}


/// The arrangement's contents as plain specification values: what every
/// model function of the walker and the fill selection reads. Two built
/// arrangements of the same line list have the same views.
pub struct ArrViews {
    pub nodes: Seq<Pt>,
    pub segments: Seq<Seg>,
    pub half_edges: Seq<HalfEdge>,
    pub outgoing: Seq<Seq<usize>>,
    pub sectors: Seq<Seq<usize>>,
    pub degree: Seq<usize>,
    pub allow: Seq<bool>,
    pub eff_degree: Seq<usize>,
}

pub open spec fn views_of(a: Arrangement) -> ArrViews {
    ArrViews {
        nodes: a.nodes@,
        segments: a.segments@,
        half_edges: a.half_edges@,
        outgoing: out_view(a.outgoing),
        sectors: out_view(a.sectors),
        degree: a.degree@,
        allow: a.allow@,
        eff_degree: a.eff_degree@,
    }
}

/// The views of the arrangement of `lines`, as a function of the lines
/// alone.
pub open spec fn built_views(lines: Seq<LineSeg>) -> ArrViews {
    ArrViews {
        nodes: built_nodes(lines),
        segments: built_segments(lines),
        half_edges: built_half_edges(lines),
        outgoing: built_outgoing(lines),
        sectors: built_sectors(lines),
        degree: built_degree(lines),
        allow: built_prune(lines).0,
        eff_degree: built_prune(lines).1,
    }
}

/// A built arrangement's views are exactly the line list's built views.
pub proof fn lemma_build_views(a: Arrangement, lines: Seq<LineSeg>)
    requires
        is_build_of(a, lines),
    ensures
        views_of(a) == built_views(lines),
{
}

/// The planar arrangement of a line list: shared nodes, split segments, the
/// two half-edges of each segment, per-node radial adjacency, and the
/// two-core mask.
pub struct Arrangement {
    pub nodes: Vec<Pt>,
    pub segments: Vec<Seg>,
    pub half_edges: Vec<HalfEdge>,
    pub outgoing: Vec<Vec<usize>>,
    pub sectors: Vec<Vec<usize>>,
    pub degree: Vec<usize>,
    pub allow: Vec<bool>,
    pub eff_degree: Vec<usize>,
}

/// `a` is exactly the arrangement of `lines`.
pub open spec fn is_build_of(a: Arrangement, lines: Seq<LineSeg>) -> bool {
    &&& a.nodes@ == built_nodes(lines)
    &&& a.segments@ == built_segments(lines)
    &&& a.half_edges@ == built_half_edges(lines)
    &&& out_view(a.outgoing) == built_outgoing(lines)
    &&& out_view(a.sectors) == built_sectors(lines)
    &&& a.degree@ == built_degree(lines)
    &&& a.allow@ == built_prune(lines).0
    &&& a.eff_degree@ == built_prune(lines).1
}

/// Structural well-formedness of an arrangement, including the two-core law:
/// every allowed node keeps effective degree at least two.
pub open spec fn arr_wf(a: Arrangement) -> bool {
    let n = a.nodes@.len() as int;
    &&& nodes_distinct(a.nodes@)
    &&& crate::poly::ring_in_range(a.nodes@)
    &&& forall|t: int| 0 <= t < a.segments@.len() ==> seg_ok(#[trigger] a.segments@[t], n)
    &&& a.half_edges@.len() == 2 * a.segments@.len()
    &&& forall|t: int|
        0 <= t < a.half_edges@.len() ==> he_ok(
            #[trigger] a.half_edges@[t],
            n,
            a.segments@.len() as int,
        )
    &&& a.outgoing@.len() == n
    &&& a.sectors@.len() == n
    &&& a.degree@.len() == n
    &&& a.allow@.len() == n
    &&& a.eff_degree@.len() == n
    &&& forall|v: int, t: int|
        0 <= v < n && 0 <= t < a.outgoing@[v]@.len() ==> ((#[trigger] a.outgoing@[v]@[t]) as int)
            < a.half_edges@.len() && (a.half_edges@[a.outgoing@[v]@[t] as int].from as int) == v
    &&& forall|v: int, t: int|
        0 <= v < n && 0 <= t < a.sectors@[v]@.len() ==> ((#[trigger] a.sectors@[v]@[t]) as int)
            < a.segments@.len()
    &&& forall|v: int| 0 <= v < n ==> (#[trigger] a.degree@[v]) as int == a.sectors@[v]@.len()
    &&& forall|v: int| 0 <= v < n && a.allow@[v] ==> (#[trigger] a.eff_degree@[v]) >= 2
    &&& forall|v: int|
        0 <= v < n ==> radially_sorted(a.half_edges@, a.nodes@, (#[trigger] a.outgoing@[v])@)
}

/// Builds the whole arrangement of `lines`: an exact function of its input.
#[verifier::rlimit(100)]
pub fn build(lines: &Vec<LineSeg>) -> (r: Arrangement)
    requires
        lines_in_range(lines@),
    ensures
        is_build_of(r, lines@),
        arr_wf(r),
{
    let mut reg = IntersectionRegistry::new();
    proof {
        assert(reg.nodes@ =~= Seq::<Pt>::empty());
    }
    let pl = run_endpoints_phase(lines, &mut reg);
    let recs = run_cross_phase(lines, &mut reg);
    let nodes = reg.nodes;
    let ghost n_nodes = nodes@.len() as int;
    proof {
        assert(nodes_distinct(Seq::<Pt>::empty()));
        assert(crate::poly::ring_in_range(Seq::<Pt>::empty()));
        assert(nodes@ == built_nodes(lines@));
        assert(rows_view(pl) == built_rows(lines@));
        assert(recs@ == built_recs(lines@));
    }
    // split every line at its registered points
    let mut segments: Vec<Seg> = Vec::new();
    let nl = pl.len();
    let mut k: usize = 0;
    while k < nl
        invariant
            nl == pl@.len(),
            k <= nl,
            forall|v: int, t: int|
                0 <= v < rows_view(pl).len() && 0 <= t < rows_view(pl)[v].len() ==> pn_ok(
                    #[trigger] rows_view(pl)[v][t],
                    nodes@.len() as int,
                ),
            forall|t: int|
                0 <= t < recs@.len() ==> ((#[trigger] recs@[t]).node as int) < nodes@.len()
                    && recs@[t].den > 0,
            split_phase(recs@, rows_view(pl), k as int, segments@) == split_phase(
                recs@,
                rows_view(pl),
                0,
                Seq::empty(),
            ),
        decreases nl - k,
    {
        let base = &pl[k];
        proof {
            assert(base@ == rows_view(pl)[k as int]);
            assert forall|m: int| 0 <= m < base@.len() implies (#[trigger] base@[m]).den > 0 by {
                assert(pn_ok(rows_view(pl)[k as int][m], nodes@.len() as int));
            }
        }
        run_line_split(&recs, base, k, &mut segments);
        k += 1;
    }
    proof {
        assert(segments@ == built_segments(lines@));
        lemma_split_phase_ok(recs@, rows_view(pl), 0, Seq::empty(), n_nodes);
    }
    // two half-edges per segment
    let mut half_edges: Vec<HalfEdge> = Vec::new();
    let ns = segments.len();
    let mut m: usize = 0;
    while m < ns
        invariant
            ns == segments@.len(),
            m <= ns,
            half_edges@.len() == 2 * m,
            hes_phase(segments@, m as int, half_edges@) == hes_phase(segments@, 0, Seq::empty()),
        decreases ns - m,
    {
        let sg = segments[m];
        half_edges.push(HalfEdge { from: sg.a, to: sg.b, seg: m });
        half_edges.push(HalfEdge { from: sg.b, to: sg.a, seg: m });
        m += 1;
    }
    proof {
        assert(half_edges@ == built_half_edges(lines@));
        lemma_hes_phase_ok(segments@, 0, Seq::empty(), n_nodes);
    }
    // undirected incidence lists and degrees
    let n_node_count = nodes.len();
    let mut sectors: Vec<Vec<usize>> = Vec::new();
    let mut degree: Vec<usize> = Vec::new();
    let mut v: usize = 0;
    while v < n_node_count
        invariant
            n_node_count == nodes@.len(),
            ns == segments@.len(),
            v <= n_node_count,
            sectors@.len() == v,
            degree@.len() == v,
            forall|u: int|
                0 <= u < v ==> (#[trigger] sectors@[u])@ == sectors_of(
                    segments@,
                    u,
                    0,
                    Seq::empty(),
                ),
            forall|u: int|
                0 <= u < v ==> (#[trigger] degree@[u]) as int == sectors_of(
                    segments@,
                    u,
                    0,
                    Seq::empty(),
                ).len(),
        decreases n_node_count - v,
    {
        let mut lst: Vec<usize> = Vec::new();
        let mut m2: usize = 0;
        while m2 < ns
            invariant
                ns == segments@.len(),
                m2 <= ns,
                (v as int) < nodes@.len(),
                sectors_of(segments@, v as int, m2 as int, lst@) == sectors_of(
                    segments@,
                    v as int,
                    0,
                    Seq::empty(),
                ),
            decreases ns - m2,
        {
            let sg = segments[m2];
            if sg.a == v || sg.b == v {
                lst.push(m2);
            }
            m2 += 1;
        }
        degree.push(lst.len());
        sectors.push(lst);
        v += 1;
    }
    // outgoing half-edges per node, radially sorted
    let nh = half_edges.len();
    let mut outgoing: Vec<Vec<usize>> = Vec::new();
    let mut v2: usize = 0;
    while v2 < n_node_count
        invariant
            n_node_count == nodes@.len(),
            nh == half_edges@.len(),
            hes_ok(half_edges@, nodes@.len() as int),
            crate::poly::ring_in_range(nodes@),
            v2 <= n_node_count,
            outgoing@.len() == v2,
            forall|u: int|
                0 <= u < v2 ==> (#[trigger] outgoing@[u])@ == sort_by_dir(
                    half_edges@,
                    nodes@,
                    outgoing_of(half_edges@, u, 0, Seq::empty()),
                ),
        decreases n_node_count - v2,
    {
        let mut lst: Vec<usize> = Vec::new();
        let mut m3: usize = 0;
        while m3 < nh
            invariant
                nh == half_edges@.len(),
                m3 <= nh,
                (v2 as int) < nodes@.len(),
                outgoing_of(half_edges@, v2 as int, m3 as int, lst@) == outgoing_of(
                    half_edges@,
                    v2 as int,
                    0,
                    Seq::empty(),
                ),
                forall|t: int| 0 <= t < lst@.len() ==> ((#[trigger] lst@[t]) as int) < nh,
            decreases nh - m3,
        {
            let h = half_edges[m3];
            if h.from == v2 {
                lst.push(m3);
            }
            m3 += 1;
        }
        let sorted = sorted_by_dir(&half_edges, &nodes, &lst);
        outgoing.push(sorted);
        v2 += 1;
    }
    proof {
        assert(out_view(outgoing) =~= built_outgoing(lines@));
        assert(out_view(sectors) =~= built_sectors(lines@));
        assert(degree@ =~= built_degree(lines@));
        assert(half_edges@.len() == half_edges.len());
        assert forall|u: int, t: int|
            0 <= u < out_view(outgoing).len() && 0 <= t < out_view(outgoing)[u].len() implies ((
        #[trigger] out_view(outgoing)[u][t]) as int) < half_edges@.len() && (half_edges@[out_view(
            outgoing,
        )[u][t] as int].from as int) == u by {
            lemma_outgoing_of_ok(half_edges@, u, 0, Seq::empty());
            lemma_sort_dir_ok(
                half_edges@,
                nodes@,
                outgoing_of(half_edges@, u, 0, Seq::empty()),
                u,
            );
        }
    }
    // strip dangling chains down to the two-core
    let pruned = crate::prune::two_core(&half_edges, &outgoing, &degree);
    let allow = pruned.0;
    let eff_degree = pruned.1;
    proof {
        assert(allow@ == built_prune(lines@).0);
        assert(eff_degree@ == built_prune(lines@).1);
        assert forall|u: int, t: int|
            0 <= u < out_view(sectors).len() && 0 <= t < out_view(sectors)[u].len() implies ((
        #[trigger] out_view(sectors)[u][t]) as int) < segments@.len() by {
            lemma_sectors_of_ok(segments@, u, 0, Seq::empty());
        }
    }
    proof {
        let n = nodes@.len() as int;
        assert(nodes_distinct(nodes@));
        assert(crate::poly::ring_in_range(nodes@));
        assert(forall|t: int| 0 <= t < segments@.len() ==> seg_ok(#[trigger] segments@[t], n));
        assert(half_edges@.len() == 2 * segments@.len());
        assert(forall|t: int|
            0 <= t < half_edges@.len() ==> he_ok(
                #[trigger] half_edges@[t],
                n,
                segments@.len() as int,
            ));
        assert(outgoing@.len() == n);
        assert(sectors@.len() == n);
        assert(degree@.len() == n);
        assert(allow@.len() == n);
        assert(eff_degree@.len() == n);
        assert(forall|u: int| 0 <= u < n ==> (#[trigger] degree@[u]) as int == sectors@[u]@.len());
        assert(forall|u: int| 0 <= u < n && allow@[u] ==> (#[trigger] eff_degree@[u]) >= 2);
        assert forall|u: int, t: int|
            0 <= u < n && 0 <= t < outgoing@[u]@.len() implies ((#[trigger] outgoing@[u]@[t]) as int)
            < half_edges@.len() && (half_edges@[outgoing@[u]@[t] as int].from as int) == u by {
            assert(out_view(outgoing)[u] == outgoing@[u]@);
            assert(((out_view(outgoing)[u][t]) as int) < half_edges@.len() && (half_edges@[out_view(
                outgoing,
            )[u][t] as int].from as int) == u);
        }
        assert forall|u: int, t: int|
            0 <= u < n && 0 <= t < sectors@[u]@.len() implies ((#[trigger] sectors@[u]@[t]) as int)
            < segments@.len() by {
            assert(out_view(sectors)[u] == sectors@[u]@);
            assert(((out_view(sectors)[u][t]) as int) < segments@.len());
        }
        assert(he_dirs_nonzero(half_edges@, nodes@)) by {
            assert forall|k: int|
                0 <= k < half_edges@.len() implies !(nodes@[(#[trigger] half_edges@[k]).to as int].x
                - nodes@[half_edges@[k].from as int].x == 0 && nodes@[half_edges@[k].to as int].y
                - nodes@[half_edges@[k].from as int].y == 0) by {
                let f = half_edges@[k].from as int;
                let t = half_edges@[k].to as int;
                if f < t {
                    assert(nodes@[f] != nodes@[t]);
                } else {
                    assert(nodes@[t] != nodes@[f]);
                }
            }
        }
        assert forall|u: int|
            0 <= u < n implies radially_sorted(half_edges@, nodes@, (#[trigger] outgoing@[u])@) by {
            lemma_outgoing_of_ok(half_edges@, u, 0, Seq::empty());
            lemma_sort_dir_radially_sorted(
                half_edges@,
                nodes@,
                outgoing_of(half_edges@, u, 0, Seq::empty()),
            );
            assert(out_view(outgoing)[u] == outgoing@[u]@);
        }
    }
    Arrangement { nodes, segments, half_edges, outgoing, sectors, degree, allow, eff_degree }
}

/// Rebuilding the arrangement twice from the same line list yields identical
/// node, segment, half-edge, adjacency and pruning structures.
pub proof fn lemma_rebuild_deterministic(a: Arrangement, b: Arrangement, lines: Seq<LineSeg>)
    requires
        is_build_of(a, lines),
        is_build_of(b, lines),
    ensures
        a.nodes@ == b.nodes@,
        a.segments@ == b.segments@,
        a.half_edges@ == b.half_edges@,
        out_view(a.outgoing) == out_view(b.outgoing),
        out_view(a.sectors) == out_view(b.sectors),
        a.degree@ == b.degree@,
        a.allow@ == b.allow@,
        a.eff_degree@ == b.eff_degree@,
{
}

} // verus!
