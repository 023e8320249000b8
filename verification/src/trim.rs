//! Overhang trimming: the destructive variant of leaf stripping.
//!
//! Working on the built arrangement, segments attached to nodes of degree
//! one are deleted repeatedly until stable; the surviving segments become
//! the new stored line set. Every kept segment provably keeps both
//! endpoints at remaining degree at least two.

use vstd::prelude::*;

use crate::arrange::Arrangement;
use crate::arrange::Seg;
use crate::geom::LineSeg;
use crate::geom::Pt;

verus! {

/// Number of still-alive segments incident to node `n`.
pub open spec fn alive_inc(segs: Seq<Seg>, del: Seq<bool>, n: int) -> int
    decreases segs.len(),
{
    if segs.len() == 0 || segs.len() != del.len() {
        0
    } else {
        alive_inc(segs.drop_last(), del.drop_last(), n) + (if !del.last() && (segs.last().a == n
            || segs.last().b == n) {
            1int
        } else {
            0int
        })
    }
}

proof fn lemma_alive_inc_nonneg(segs: Seq<Seg>, del: Seq<bool>, n: int)
    ensures
        alive_inc(segs, del, n) >= 0,
    decreases segs.len(),
{
    if segs.len() > 0 && segs.len() == del.len() {
        lemma_alive_inc_nonneg(segs.drop_last(), del.drop_last(), n);
    }
}

/// Deleting segment `k` lowers the alive incidence of its endpoints (by one
/// each when they differ) and leaves every other node's incidence alone.
proof fn lemma_alive_inc_delete(segs: Seq<Seg>, del: Seq<bool>, k: int, n: int)
    requires
        segs.len() == del.len(),
        0 <= k < segs.len(),
        !del[k],
    ensures
        alive_inc(segs, del.update(k, true), n) == alive_inc(segs, del, n) - (if segs[k].a == n
            || segs[k].b == n {
            1int
        } else {
            0int
        }),
    decreases segs.len(),
{
    let d2 = del.update(k, true);
    if k == segs.len() - 1 {
        assert(d2.drop_last() =~= del.drop_last());
    } else {
        assert(d2.drop_last() =~= del.drop_last().update(k, true));
        lemma_alive_inc_delete(segs.drop_last(), del.drop_last(), k, n);
    }
}

proof fn lemma_alive_inc_absent(segs: Seq<Seg>, del: Seq<bool>, n: int)
    requires
        segs.len() == del.len(),
        forall|k: int|
            0 <= k < segs.len() ==> !(!(#[trigger] del[k]) && (segs[k].a == n || segs[k].b == n)),
    ensures
        alive_inc(segs, del, n) == 0,
    decreases segs.len(),
{
    if segs.len() > 0 {
        lemma_alive_inc_absent(segs.drop_last(), del.drop_last(), n);
    }
}

/// An alive segment incident to `n` keeps `n`'s alive incidence positive.
proof fn lemma_alive_inc_member(segs: Seq<Seg>, del: Seq<bool>, k: int, n: int)
    requires
        segs.len() == del.len(),
        0 <= k < segs.len(),
        !del[k],
        segs[k].a == n || segs[k].b == n,
    ensures
        alive_inc(segs, del, n) >= 1,
    decreases segs.len(),
{
    if k < segs.len() - 1 {
        lemma_alive_inc_member(segs.drop_last(), del.drop_last(), k, n);
    } else {
        lemma_alive_inc_nonneg(segs.drop_last(), del.drop_last(), n);
    }
}

/// The kept segments of the arrangement as stored lines, in segment order.
pub open spec fn kept_lines(nodes: Seq<Pt>, segs: Seq<Seg>, del: Seq<bool>, k: int, acc: Seq<
    LineSeg,
>) -> Seq<LineSeg>
    decreases segs.len() - k when 0 <= k <= segs.len()
{
    if k >= segs.len() {
        acc
    } else {
        let acc1 = if !del[k] {
            acc.push(LineSeg { a: nodes[segs[k].a as int], b: nodes[segs[k].b as int] })
        } else {
            acc
        };
        kept_lines(nodes, segs, del, k + 1, acc1)
    }
}


/// Index of the first still-alive segment incident to `nid`, from `m` on;
/// the segment count if there is none.
pub open spec fn first_alive(segs: Seq<Seg>, del: Seq<bool>, nid: int, m: int) -> int
    decreases segs.len() - m when 0 <= m <= segs.len()
{
    if m >= segs.len() {
        segs.len() as int
    } else if !del[m] && (segs[m].a == nid || segs[m].b == nid) {
        m
    } else {
        first_alive(segs, del, nid, m + 1)
    }
}

proof fn lemma_first_alive_props(segs: Seq<Seg>, del: Seq<bool>, nid: int, m: int)
    requires
        0 <= m <= segs.len(),
    ensures
        m <= first_alive(segs, del, nid, m) <= segs.len(),
        first_alive(segs, del, nid, m) < segs.len() ==> ({
            let k = first_alive(segs, del, nid, m);
            !del[k] && (segs[k].a == nid || segs[k].b == nid)
        }),
    decreases segs.len() - m,
{
    if m < segs.len() && !(!del[m] && (segs[m].a == nid || segs[m].b == nid)) {
        lemma_first_alive_props(segs, del, nid, m + 1);
    }
}

/// A deletion mask with nothing deleted.
pub open spec fn no_deletions(len: nat) -> Seq<bool> {
    Seq::new(len, |k: int| false)
}

/// Raw degrees recomputed from the segments with nothing deleted.
pub open spec fn init_degrees(segs: Seq<Seg>, n_nodes: int) -> Seq<usize> {
    Seq::new(n_nodes as nat, |u: int| alive_inc(segs, no_deletions(segs.len()), u) as usize)
}

/// The worklist run: pop a node from the back; a node of degree one loses
/// its first alive incident segment, its own degree drops to zero, and the
/// far endpoint's degree drops by one, re-enqueuing it at one or less.
pub open spec fn strip_run(
    segs: Seq<Seg>,
    queue: Seq<usize>,
    del: Seq<bool>,
    degree: Seq<usize>,
) -> (Seq<bool>, Seq<usize>)
    decreases deleted_measure(segs, del), queue.len() when segs.len() == del.len() via strip_run_dec
{
    if queue.len() == 0 {
        (del, degree)
    } else {
        let nid = queue.last() as int;
        let q0 = queue.drop_last();
        if 0 <= nid < degree.len() && degree[nid] == 1 {
            let k = first_alive(segs, del, nid, 0);
            if k < segs.len() {
                let other = if segs[k].a as int == nid {
                    segs[k].b
                } else {
                    segs[k].a
                };
                let del1 = del.update(k, true);
                let deg1 = degree.update(nid, 0);
                let dother = deg1[other as int];
                let step = if dother > 0 {
                    let deg2 = deg1.update(other as int, (dother - 1) as usize);
                    if dother - 1 <= 1 {
                        (deg2, q0.push(other))
                    } else {
                        (deg2, q0)
                    }
                } else {
                    (deg1, q0)
                };
                strip_run(segs, step.1, del1, step.0)
            } else {
                strip_run(segs, q0, del, degree)
            }
        } else {
            strip_run(segs, q0, del, degree)
        }
    }
}

#[via_fn]
proof fn strip_run_dec(segs: Seq<Seg>, queue: Seq<usize>, del: Seq<bool>, degree: Seq<usize>) {
    if queue.len() > 0 {
        let nid = queue.last() as int;
        if 0 <= nid < degree.len() && degree[nid] == 1 {
            let k = first_alive(segs, del, nid, 0);
            lemma_first_alive_props(segs, del, nid, 0);
            if k < segs.len() {
                lemma_deleted_measure_delete(segs, del, k);
            }
        }
    }
}

/// Repeatedly deletes segments hanging off degree-one nodes and returns the
/// deletion mask and how many segments were deleted. Afterwards every kept
/// segment has both endpoints at remaining degree at least two.
#[verifier::rlimit(100)]
pub fn strip_overhangs(arr: &Arrangement) -> (r: (Vec<bool>, usize))
    requires
        crate::arrange::arr_wf(*arr),
    ensures
        r.0@.len() == arr.segments@.len(),
        r.1 as int <= arr.segments@.len(),
        r.0@ == strip_run(
            arr.segments@,
            crate::prune::seed_queue(
                init_degrees(arr.segments@, arr.nodes@.len() as int),
                0,
                Seq::empty(),
            ),
            no_deletions(arr.segments@.len()),
            init_degrees(arr.segments@, arr.nodes@.len() as int),
        ).0,
        r.1 as int == arr.segments@.len() - deleted_measure(arr.segments@, r.0@),
        forall|k: int|
            0 <= k < arr.segments@.len() && !r.0@[k] ==> alive_inc(
                arr.segments@,
                r.0@,
                arr.segments@[k].a as int,
            ) >= 2 && alive_inc(arr.segments@, r.0@, arr.segments@[k].b as int) >= 2,
{
    let n_nodes = arr.nodes.len();
    let n_segs = arr.segments.len();
    let ghost segs = arr.segments@;
    // raw degrees recomputed from the segments themselves
    let mut degree: Vec<usize> = Vec::new();
    let mut del: Vec<bool> = Vec::new();
    let mut v: usize = 0;
    while v < n_segs
        invariant
            n_segs == segs.len(),
            segs == arr.segments@,
            v <= n_segs,
            del@.len() == v,
            forall|k: int| 0 <= k < v ==> !(#[trigger] del@[k]),
        decreases n_segs - v,
    {
        del.push(false);
        v += 1;
    }
    let mut v2: usize = 0;
    while v2 < n_nodes
        invariant
            crate::arrange::arr_wf(*arr),
            n_nodes == arr.nodes@.len(),
            n_segs == segs.len(),
            segs == arr.segments@,
            del@.len() == n_segs,
            forall|k: int| 0 <= k < n_segs ==> !(#[trigger] del@[k]),
            v2 <= n_nodes,
            degree@.len() == v2,
            forall|u: int| 0 <= u < v2 ==> (#[trigger] degree@[u]) as int == alive_inc(
                segs,
                del@,
                u,
            ),
        decreases n_nodes - v2,
    {
        let mut cnt: usize = 0;
        let mut m: usize = 0;
        while m < n_segs
            invariant
                crate::arrange::arr_wf(*arr),
                n_segs == segs.len(),
                segs == arr.segments@,
                del@.len() == n_segs,
                forall|k: int| 0 <= k < n_segs ==> !(#[trigger] del@[k]),
                m <= n_segs,
                (v2 as int) < arr.nodes@.len(),
                cnt as int == alive_inc(segs.take(m as int), del@.take(m as int), v2 as int),
                cnt <= m,
            decreases n_segs - m,
        {
            let sg = arr.segments[m];
            if sg.a == v2 || sg.b == v2 {
                cnt += 1;
            }
            m += 1;
            proof {
                assert(segs.take(m as int).drop_last() =~= segs.take(m as int - 1));
                assert(del@.take(m as int).drop_last() =~= del@.take(m as int - 1));
            }
        }
        proof {
            assert(segs.take(n_segs as int) =~= segs);
            assert(del@.take(n_segs as int) =~= del@);
        }
        degree.push(cnt);
        v2 += 1;
    }
    proof {
        assert(del@ =~= no_deletions(segs.len()));
        assert(degree@ =~= init_degrees(segs, n_nodes as int));
    }
    // worklist of low-degree nodes
    let mut queue: Vec<usize> = Vec::new();
    let mut v3: usize = 0;
    while v3 < n_nodes
        invariant
            n_nodes == degree@.len(),
            v3 <= n_nodes,
            forall|k: int| 0 <= k < queue@.len() ==> ((#[trigger] queue@[k]) as int) < n_nodes,
            forall|u: int|
                0 <= u < v3 && (#[trigger] degree@[u]) <= 1 ==> queue@.contains(u as usize),
            crate::prune::seed_queue(degree@, v3 as int, queue@) == crate::prune::seed_queue(
                degree@,
                0,
                Seq::empty(),
            ),
        decreases n_nodes - v3,
    {
        let ghost q0 = queue@;
        if degree[v3] <= 1 {
            queue.push(v3);
        }
        v3 += 1;
        proof {
            assert forall|u: int|
                0 <= u < v3 && (#[trigger] degree@[u]) <= 1 implies queue@.contains(u as usize) by {
                if u == v3 - 1 {
                    assert(queue@[queue@.len() - 1] == u as usize);
                } else {
                    let w = choose|w: int| 0 <= w < q0.len() && q0[w] == u as usize;
                    assert(queue@[w] == u as usize);
                }
            }
        }
    }
    let mut deleted: usize = 0;
    let ghost q_init = queue@;
    let ghost del_init = del@;
    let ghost deg_init = degree@;
    proof {
        lemma_measure_all_false(segs, del@);
    }
    while queue.len() > 0
        invariant
            crate::arrange::arr_wf(*arr),
            n_nodes == arr.nodes@.len(),
            n_segs == segs.len(),
            segs == arr.segments@,
            del@.len() == n_segs,
            degree@.len() == n_nodes,
            strip_run(segs, queue@, del@, degree@) == strip_run(segs, q_init, del_init, deg_init),
            deleted as int + deleted_measure(segs, del@) == n_segs,
            forall|k: int| 0 <= k < queue@.len() ==> ((#[trigger] queue@[k]) as int) < n_nodes,
            forall|u: int|
                0 <= u < n_nodes ==> (#[trigger] degree@[u]) as int == alive_inc(segs, del@, u),
            forall|u: int|
                0 <= u < n_nodes && (#[trigger] degree@[u]) == 1 ==> queue@.contains(u as usize),
        decreases deleted_measure(segs, del@), queue@.len(),
    {
        let ghost pre_q = queue@;
        let node_idx = queue.pop().unwrap();
        proof {
            assert(pre_q[pre_q.len() - 1] == node_idx);
        }
        let d = degree[node_idx];
        if d == 1 {
            // find the single alive incident segment
            let mut found = false;
            let mut seg_idx: usize = 0;
            let mut m2: usize = 0;
            while m2 < n_segs
                invariant
                    n_segs == segs.len(),
                    segs == arr.segments@,
                    del@.len() == n_segs,
                    m2 <= n_segs,
                    (node_idx as int) < n_nodes,
                    found ==> (seg_idx as int) < n_segs && !del@[seg_idx as int] && (
                    segs[seg_idx as int].a == node_idx || segs[seg_idx as int].b == node_idx),
                    found ==> seg_idx as int == first_alive(segs, del@, node_idx as int, 0),
                    !found ==> first_alive(segs, del@, node_idx as int, 0) == first_alive(
                        segs,
                        del@,
                        node_idx as int,
                        m2 as int,
                    ),
                    !found ==> forall|k: int|
                        0 <= k < m2 ==> !(!(#[trigger] del@[k]) && (segs[k].a == node_idx
                            || segs[k].b == node_idx)),
                decreases n_segs - m2,
            {
                if !found {
                    let is_del = del[m2];
                    if !is_del {
                        let sg = arr.segments[m2];
                        if sg.a == node_idx || sg.b == node_idx {
                            found = true;
                            seg_idx = m2;
                        }
                    }
                }
                m2 += 1;
            }
            if found {
                let sg = arr.segments[seg_idx];
                let other: usize = if sg.a == node_idx {
                    sg.b
                } else {
                    sg.a
                };
                let ghost del0 = del@;
                let ghost deg0 = degree@;
                proof {
                    assert(sg.a != sg.b);
                    assert(other != node_idx);
                    lemma_alive_inc_member(segs, del0, seg_idx as int, other as int);
                    lemma_measure_member(segs, del0, seg_idx as int);
                    lemma_deleted_measure_delete(segs, del0, seg_idx as int);
                    lemma_alive_inc_delete(segs, del0, seg_idx as int, node_idx as int);
                    lemma_alive_inc_delete(segs, del0, seg_idx as int, other as int);
                }
                del[seg_idx] = true;
                deleted += 1;
                degree[node_idx] = 0;
                let dother = degree[other];
                if dother > 0 {
                    degree[other] = dother - 1;
                    if dother - 1 <= 1 {
                        queue.push(other);
                    }
                } else {
                    proof {
                        assert(false);
                    }
                }
                proof {
                    assert forall|u: int|
                        0 <= u < n_nodes implies (#[trigger] degree@[u]) as int == alive_inc(
                        segs,
                        del@,
                        u,
                    ) by {
                        lemma_alive_inc_delete(segs, del0, seg_idx as int, u);
                        if u != node_idx as int && u != other as int {
                            assert(degree@[u] == deg0[u]);
                        }
                    }
                    assert forall|u: int|
                        0 <= u < n_nodes && (#[trigger] degree@[u]) == 1 implies queue@.contains(
                        u as usize,
                    ) by {
                        if u == other as int {
                            assert(queue@[queue@.len() - 1] == other);
                        } else {
                            assert(u != node_idx as int);
                            assert(deg0[u] == degree@[u]);
                            let w = choose|w: int| 0 <= w < pre_q.len() && pre_q[w] == u as usize;
                            assert(w < pre_q.len() - 1);
                            assert(queue@[w] == u as usize);
                        }
                    }
                    assert(strip_run(segs, pre_q, del0, deg0) == strip_run(
                        segs,
                        queue@,
                        del@,
                        degree@,
                    ));
                }
            } else {
                proof {
                    lemma_alive_inc_absent(segs, del@, node_idx as int);
                    assert(false);
                }
            }
        } else {
            proof {
                assert forall|u: int|
                    0 <= u < n_nodes && (#[trigger] degree@[u]) == 1 implies queue@.contains(
                    u as usize,
                ) by {
                    assert(u != node_idx as int);
                    let w = choose|w: int| 0 <= w < pre_q.len() && pre_q[w] == u as usize;
                    assert(w < pre_q.len() - 1);
                    assert(queue@[w] == u as usize);
                }
                assert(strip_run(segs, pre_q, del@, degree@) == strip_run(
                    segs,
                    queue@,
                    del@,
                    degree@,
                ));
            }
        }
    }
    proof {
        assert forall|k: int|
            0 <= k < segs.len() && !del@[k] implies alive_inc(segs, del@, segs[k].a as int) >= 2
            && alive_inc(segs, del@, segs[k].b as int) >= 2 by {
            lemma_alive_inc_member(segs, del@, k, segs[k].a as int);
            lemma_alive_inc_member(segs, del@, k, segs[k].b as int);
            assert(degree@[segs[k].a as int] as int == alive_inc(segs, del@, segs[k].a as int));
            assert(degree@[segs[k].b as int] as int == alive_inc(segs, del@, segs[k].b as int));
        }
    }
    (del, deleted)
}

/// Number of still-alive segments: the measure that each deletion lowers.
pub open spec fn deleted_measure(segs: Seq<Seg>, del: Seq<bool>) -> nat
    decreases del.len(),
{
    if del.len() == 0 {
        0
    } else {
        deleted_measure(segs, del.drop_last()) + (if !del.last() {
            1nat
        } else {
            0nat
        })
    }
}

proof fn lemma_deleted_measure_delete(segs: Seq<Seg>, del: Seq<bool>, k: int)
    requires
        0 <= k < del.len(),
        !del[k],
    ensures
        deleted_measure(segs, del.update(k, true)) == deleted_measure(segs, del) - 1,
    decreases del.len(),
{
    let d2 = del.update(k, true);
    if k == del.len() - 1 {
        assert(d2.drop_last() =~= del.drop_last());
    } else {
        assert(d2.drop_last() =~= del.drop_last().update(k, true));
        lemma_deleted_measure_delete(segs, del.drop_last(), k);
    }
}

proof fn lemma_measure_all_false(segs: Seq<Seg>, del: Seq<bool>)
    requires
        forall|k: int| 0 <= k < del.len() ==> !(#[trigger] del[k]),
    ensures
        deleted_measure(segs, del) == del.len(),
    decreases del.len(),
{
    if del.len() > 0 {
        lemma_measure_all_false(segs, del.drop_last());
    }
}

proof fn lemma_measure_member(segs: Seq<Seg>, del: Seq<bool>, k: int)
    requires
        0 <= k < del.len(),
        !del[k],
    ensures
        deleted_measure(segs, del) >= 1,
    decreases del.len(),
{
    if k < del.len() - 1 {
        lemma_measure_member(segs, del.drop_last(), k);
    }
}

/// Collects the kept segments as stored lines.
pub fn collect_kept_lines(arr: &Arrangement, del: &Vec<bool>) -> (r: Vec<LineSeg>)
    requires
        crate::arrange::arr_wf(*arr),
        del@.len() == arr.segments@.len(),
    ensures
        r@ == kept_lines(arr.nodes@, arr.segments@, del@, 0, Seq::empty()),
        crate::arrange::lines_in_range(r@),
        forall|k: int| 0 <= k < r@.len() ==> (#[trigger] r@[k]).a != r@[k].b,
{
    let n_segs = arr.segments.len();
    let mut r: Vec<LineSeg> = Vec::new();
    let mut k: usize = 0;
    while k < n_segs
        invariant
            crate::arrange::arr_wf(*arr),
            del@.len() == arr.segments@.len(),
            n_segs == arr.segments@.len(),
            k <= n_segs,
            kept_lines(arr.nodes@, arr.segments@, del@, k as int, r@) == kept_lines(
                arr.nodes@,
                arr.segments@,
                del@,
                0,
                Seq::empty(),
            ),
            crate::arrange::lines_in_range(r@),
            forall|t: int| 0 <= t < r@.len() ==> (#[trigger] r@[t]).a != r@[t].b,
        decreases n_segs - k,
    {
        let is_del = del[k];
        if !is_del {
            let sg = arr.segments[k];
            let la = arr.nodes[sg.a];
            let lb = arr.nodes[sg.b];
            r.push(LineSeg { a: la, b: lb });
        }
        k += 1;
    }
    r
}

} // verus!
