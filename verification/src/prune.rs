//! Two-core reduction: iterative leaf stripping.
//!
//! Nodes of effective degree at most one are put on a worklist; stripping a
//! node marks it disallowed and lowers each neighbour's effective degree,
//! re-enqueuing neighbours that drop to one or less. When the worklist
//! empties, every still-allowed node provably has effective degree at least
//! two — the surviving subgraph is a genuine 2-core.

use vstd::prelude::*;

use crate::arrange::HalfEdge;

verus! {

pub open spec fn count_true(s: Seq<bool>) -> nat
    decreases s.len(),
{
    if s.len() == 0 {
        0
    } else {
        count_true(s.drop_last()) + (if s.last() {
            1nat
        } else {
            0nat
        })
    }
}

proof fn lemma_count_true_update_false(s: Seq<bool>, i: int)
    requires
        0 <= i < s.len(),
        s[i],
    ensures
        count_true(s.update(i, false)) < count_true(s),
    decreases s.len(),
{
    let t = s.update(i, false);
    if i == s.len() - 1 {
        assert(t.drop_last() =~= s.drop_last());
    } else {
        assert(t.drop_last() =~= s.drop_last().update(i, false));
        lemma_count_true_update_false(s.drop_last(), i);
    }
}

/// The node ids whose effective degree starts at one or less, ascending.
pub open spec fn seed_queue(eff: Seq<usize>, i: int, acc: Seq<usize>) -> Seq<usize>
    decreases eff.len() - i when 0 <= i <= eff.len()
{
    if i >= eff.len() {
        acc
    } else {
        let acc1 = if eff[i] <= 1 {
            acc.push(i as usize)
        } else {
            acc
        };
        seed_queue(eff, i + 1, acc1)
    }
}

/// Stripping one node: every outgoing half-edge lowers its target's
/// effective degree (not below zero), and targets that drop to one or less
/// join the worklist.
pub open spec fn strip_neighbors(
    hes: Seq<HalfEdge>,
    lst: Seq<usize>,
    m: int,
    eff: Seq<usize>,
    queue: Seq<usize>,
) -> (Seq<usize>, Seq<usize>)
    decreases lst.len() - m when 0 <= m <= lst.len()
{
    if m >= lst.len() {
        (eff, queue)
    } else {
        let nb = hes[lst[m] as int].to as int;
        let step = if eff[nb] > 0 {
            let e2 = eff.update(nb, (eff[nb] - 1) as usize);
            if e2[nb] <= 1 {
                (e2, queue.push(nb as usize))
            } else {
                (e2, queue)
            }
        } else {
            (eff, queue)
        };
        strip_neighbors(hes, lst, m + 1, step.0, step.1)
    }
}

/// The whole worklist run, popping from the back.
pub open spec fn prune_run(
    hes: Seq<HalfEdge>,
    out: Seq<Seq<usize>>,
    queue: Seq<usize>,
    allow: Seq<bool>,
    eff: Seq<usize>,
) -> (Seq<bool>, Seq<usize>)
    decreases count_true(allow), queue.len() when queue.len() >= 0 via prune_run_dec
{
    if queue.len() == 0 {
        (allow, eff)
    } else {
        let nid = queue.last() as int;
        let q0 = queue.drop_last();
        if nid >= allow.len() || !allow[nid] {
            prune_run(hes, out, q0, allow, eff)
        } else {
            let allow1 = allow.update(nid, false);
            let step = strip_neighbors(hes, out[nid], 0, eff, q0);
            prune_run(hes, out, step.1, allow1, step.0)
        }
    }
}

#[via_fn]
proof fn prune_run_dec(
    hes: Seq<HalfEdge>,
    out: Seq<Seq<usize>>,
    queue: Seq<usize>,
    allow: Seq<bool>,
    eff: Seq<usize>,
) {
    if queue.len() > 0 {
        let nid = queue.last() as int;
        if !(nid >= allow.len() || !allow[nid]) {
            lemma_count_true_update_false(allow, nid);
        }
    }
}

/// Stripping one node's incident edges never increases any other node's
/// effective degree: effective degrees only ever go down.
pub proof fn lemma_strip_never_raises(
    hes: Seq<HalfEdge>,
    lst: Seq<usize>,
    m: int,
    eff: Seq<usize>,
    queue: Seq<usize>,
)
    requires
        0 <= m <= lst.len(),
        forall|k: int| 0 <= k < lst.len() ==> ((#[trigger] lst[k]) as int) < hes.len(),
        forall|k: int| 0 <= k < hes.len() ==> ((#[trigger] hes[k]).to as int) < eff.len(),
    ensures
        strip_neighbors(hes, lst, m, eff, queue).0.len() == eff.len(),
        forall|u: int|
            0 <= u < eff.len() ==> (#[trigger] strip_neighbors(hes, lst, m, eff, queue).0[u])
                <= eff[u],
    decreases lst.len() - m,
{
    if m < lst.len() {
        let nb = hes[lst[m] as int].to as int;
        if eff[nb] > 0 {
            let e2 = eff.update(nb, (eff[nb] - 1) as usize);
            if e2[nb] <= 1 {
                lemma_strip_never_raises(hes, lst, m + 1, e2, queue.push(nb as usize));
            } else {
                lemma_strip_never_raises(hes, lst, m + 1, e2, queue);
            }
        } else {
            lemma_strip_never_raises(hes, lst, m + 1, eff, queue);
        }
    }
}

/// Validity of the adjacency handed to the pruner.
pub open spec fn adjacency_ok(hes: Seq<HalfEdge>, out: Seq<Seq<usize>>, n: int) -> bool {
    &&& out.len() == n
    &&& forall|k: int| 0 <= k < hes.len() ==> ((#[trigger] hes[k]).to as int) < n
    &&& forall|v: int, m: int|
        0 <= v < out.len() && 0 <= m < out[v].len() ==> ((#[trigger] out[v][m]) as int) < hes.len()
}

proof fn lemma_strip_neighbors_invariant(
    hes: Seq<HalfEdge>,
    lst: Seq<usize>,
    m: int,
    eff: Seq<usize>,
    queue: Seq<usize>,
    allow: Seq<bool>,
    n: int,
)
    requires
        0 <= m <= lst.len(),
        n <= usize::MAX,
        allow.len() == n,
        eff.len() == n,
        forall|k: int| 0 <= k < lst.len() ==> ((#[trigger] lst[k]) as int) < hes.len(),
        forall|k: int| 0 <= k < hes.len() ==> ((#[trigger] hes[k]).to as int) < n,
        forall|k: int| 0 <= k < queue.len() ==> ((#[trigger] queue[k]) as int) < n,
        forall|x: int|
            0 <= x < n && allow[x] && (#[trigger] eff[x]) <= 1 ==> queue.contains(x as usize),
    ensures
        ({
            let r = strip_neighbors(hes, lst, m, eff, queue);
            &&& r.0.len() == n
            &&& forall|k: int| 0 <= k < r.1.len() ==> ((#[trigger] r.1[k]) as int) < n
            &&& forall|x: int|
                0 <= x < n && allow[x] && (#[trigger] r.0[x]) <= 1 ==> r.1.contains(x as usize)
        }),
    decreases lst.len() - m,
{
    if m < lst.len() {
        let nb = hes[lst[m] as int].to as int;
        if eff[nb] > 0 {
            let e2 = eff.update(nb, (eff[nb] - 1) as usize);
            if e2[nb] <= 1 {
                let q2 = queue.push(nb as usize);
                assert forall|x: int|
                    0 <= x < n && allow[x] && (#[trigger] e2[x]) <= 1 implies q2.contains(
                    x as usize,
                ) by {
                    if x == nb {
                        assert(q2[q2.len() - 1] == nb as usize);
                    } else {
                        assert(eff[x] == e2[x]);
                        let w = choose|w: int| 0 <= w < queue.len() && queue[w] == x as usize;
                        assert(q2[w] == x as usize);
                    }
                }
                lemma_strip_neighbors_invariant(hes, lst, m + 1, e2, q2, allow, n);
            } else {
                assert forall|x: int|
                    0 <= x < n && allow[x] && (#[trigger] e2[x]) <= 1 implies queue.contains(
                    x as usize,
                ) by {
                    assert(eff[x] == e2[x]);
                }
                lemma_strip_neighbors_invariant(hes, lst, m + 1, e2, queue, allow, n);
            }
        } else {
            lemma_strip_neighbors_invariant(hes, lst, m + 1, eff, queue, allow, n);
        }
    }
}

/// The worklist invariant at the heart of the 2-core law: every allowed node
/// of effective degree one or less is still on the worklist, so when the
/// worklist empties, every allowed node has effective degree at least two.
proof fn lemma_prune_run_two_core(
    hes: Seq<HalfEdge>,
    out: Seq<Seq<usize>>,
    queue: Seq<usize>,
    allow: Seq<bool>,
    eff: Seq<usize>,
    n: int,
)
    requires
        n <= usize::MAX,
        allow.len() == n,
        eff.len() == n,
        adjacency_ok(hes, out, n),
        forall|k: int| 0 <= k < queue.len() ==> ((#[trigger] queue[k]) as int) < n,
        forall|x: int|
            0 <= x < n && allow[x] && (#[trigger] eff[x]) <= 1 ==> queue.contains(x as usize),
    ensures
        ({
            let r = prune_run(hes, out, queue, allow, eff);
            &&& r.0.len() == n
            &&& r.1.len() == n
            &&& forall|x: int| 0 <= x < n && r.0[x] ==> (#[trigger] r.1[x]) >= 2
        }),
    decreases count_true(allow), queue.len(),
{
    if queue.len() == 0 {
    } else {
        let nid = queue.last() as int;
        let q0 = queue.drop_last();
        if nid >= allow.len() || !allow[nid] {
            assert(!allow[nid]);
            assert forall|x: int|
                0 <= x < n && allow[x] && (#[trigger] eff[x]) <= 1 implies q0.contains(x as usize) by {
                let w = choose|w: int| 0 <= w < queue.len() && queue[w] == x as usize;
                assert(x != nid);
                assert(queue[queue.len() - 1] as int == nid);
                assert(w < queue.len() - 1);
                assert(q0[w] == x as usize);
            }
            lemma_prune_run_two_core(hes, out, q0, allow, eff, n);
        } else {
            let allow1 = allow.update(nid, false);
            assert forall|x: int|
                0 <= x < n && allow1[x] && (#[trigger] eff[x]) <= 1 implies q0.contains(x as usize) by {
                let w = choose|w: int| 0 <= w < queue.len() && queue[w] == x as usize;
                assert(x != nid);
                assert(w < queue.len() - 1);
                assert(q0[w] == x as usize);
            }
            lemma_strip_neighbors_invariant(hes, out[nid], 0, eff, q0, allow1, n);
            let step = strip_neighbors(hes, out[nid], 0, eff, q0);
            lemma_count_true_update_false(allow, nid);
            lemma_prune_run_two_core(hes, out, step.1, allow1, step.0, n);
        }
    }
}

/// Runs the worklist reduction and returns the allowed mask and the
/// effective degrees; afterwards every allowed node has effective degree at
/// least two.
pub fn two_core(hes: &Vec<HalfEdge>, out: &Vec<Vec<usize>>, degree: &Vec<usize>) -> (r: (
    Vec<bool>,
    Vec<usize>,
))
    requires
        adjacency_ok(hes@, crate::arrange::out_view(*out), degree@.len() as int),
    ensures
        ({
            let n = degree@.len() as int;
            let model = prune_run(
                hes@,
                crate::arrange::out_view(*out),
                seed_queue(degree@, 0, Seq::empty()),
                Seq::new(degree@.len(), |i: int| true),
                degree@,
            );
            &&& r.0@ == model.0
            &&& r.1@ == model.1
            &&& r.0@.len() == n
            &&& r.1@.len() == n
            &&& forall|x: int| 0 <= x < n && r.0@[x] ==> (#[trigger] r.1@[x]) >= 2
        }),
{
    let n = degree.len();
    let ghost out_v = crate::arrange::out_view(*out);
    let mut allow: Vec<bool> = Vec::new();
    let mut eff: Vec<usize> = Vec::new();
    let mut i: usize = 0;
    while i < n
        invariant
            n == degree@.len(),
            i <= n,
            allow@ =~= Seq::new(i as nat, |k: int| true),
            eff@ =~= degree@.take(i as int),
        decreases n - i,
    {
        allow.push(true);
        eff.push(degree[i]);
        i += 1;
        proof {
            assert(allow@ =~= Seq::new(i as nat, |k: int| true));
            assert(eff@ =~= degree@.take(i as int));
        }
    }
    proof {
        assert(eff@ =~= degree@);
    }
    let mut queue: Vec<usize> = Vec::new();
    let mut i2: usize = 0;
    while i2 < n
        invariant
            n == degree@.len(),
            eff@ == degree@,
            i2 <= n,
            seed_queue(eff@, i2 as int, queue@) == seed_queue(eff@, 0, Seq::empty()),
            forall|k: int| 0 <= k < queue@.len() ==> ((#[trigger] queue@[k]) as int) < n,
        decreases n - i2,
    {
        if eff[i2] <= 1 {
            queue.push(i2);
        }
        i2 += 1;
    }
    let ghost q0 = queue@;
    let ghost a0 = allow@;
    let ghost e0 = eff@;
    proof {
        assert(degree@.len() == degree.len());
        lemma_seed_queue_bounds(e0, 0, Seq::empty());
    }
    while queue.len() > 0
        invariant
            n == degree@.len(),
            allow@.len() == n,
            eff@.len() == n,
            adjacency_ok(hes@, out_v, n as int),
            out_v == crate::arrange::out_view(*out),
            forall|k: int| 0 <= k < queue@.len() ==> ((#[trigger] queue@[k]) as int) < n,
            prune_run(hes@, out_v, queue@, allow@, eff@) == prune_run(hes@, out_v, q0, a0, e0),
        decreases count_true(allow@), queue@.len(),
    {
        let ghost pre_queue = queue@;
        let ghost pre_allow = allow@;
        let ghost pre_eff = eff@;
        let nid = queue.pop().unwrap();
        if allow[nid] {
            allow[nid] = false;
            proof {
                lemma_count_true_update_false(pre_allow, nid as int);
            }
            let deg_list_len = out[nid].len();
            let mut m: usize = 0;
            while m < deg_list_len
                invariant
                    n == degree@.len(),
                    allow@.len() == n,
                    eff@.len() == n,
                    adjacency_ok(hes@, out_v, n as int),
                    out_v == crate::arrange::out_view(*out),
                    (nid as int) < n,
                    deg_list_len == out_v[nid as int].len(),
                    m <= deg_list_len,
                    allow@ == pre_allow.update(nid as int, false),
                    forall|k: int| 0 <= k < queue@.len() ==> ((#[trigger] queue@[k]) as int) < n,
                    strip_neighbors(hes@, out_v[nid as int], m as int, eff@, queue@)
                        == strip_neighbors(
                        hes@,
                        out_v[nid as int],
                        0,
                        pre_eff,
                        pre_queue.drop_last(),
                    ),
                decreases deg_list_len - m,
            {
                let he_idx = out[nid][m];
                let nb = hes[he_idx].to;
                if eff[nb] > 0 {
                    eff[nb] = eff[nb] - 1;
                    if eff[nb] <= 1 {
                        queue.push(nb);
                    }
                }
                m += 1;
            }
        }
    }
    proof {
        lemma_prune_run_two_core(hes@, out_v, q0, a0, e0, n as int);
    }
    (allow, eff)
}

proof fn lemma_seed_queue_bounds(eff: Seq<usize>, i: int, acc: Seq<usize>)
    requires
        eff.len() <= usize::MAX,
        0 <= i <= eff.len(),
        forall|k: int| 0 <= k < acc.len() ==> ((#[trigger] acc[k]) as int) < eff.len(),
    ensures
        forall|k: int|
            0 <= k < seed_queue(eff, i, acc).len() ==> ((#[trigger] seed_queue(eff, i, acc)[k])
                as int) < eff.len(),
        forall|x: int|
            0 <= x < eff.len() && (#[trigger] eff[x]) <= 1 && i == 0 ==> seed_queue(
                eff,
                i,
                acc,
            ).contains(x as usize),
    decreases eff.len() - i,
{
    if i < eff.len() {
        let acc1 = if eff[i] <= 1 {
            acc.push(i as usize)
        } else {
            acc
        };
        lemma_seed_queue_bounds(eff, i + 1, acc1);
        assert(seed_queue(eff, i, acc) == seed_queue(eff, i + 1, acc1));
        if i == 0 {
            assert forall|x: int|
                0 <= x < eff.len() && (#[trigger] eff[x]) <= 1 implies seed_queue(
                eff,
                0,
                acc,
            ).contains(x as usize) by {
                lemma_seed_queue_contains(eff, 0, acc, x);
            }
        }
    }
}

/// Every low-degree node from position `i` on ends up in the seeded queue.
proof fn lemma_seed_queue_contains(eff: Seq<usize>, i: int, acc: Seq<usize>, x: int)
    requires
        eff.len() <= usize::MAX,
        0 <= i <= eff.len(),
        i <= x < eff.len(),
        eff[x] <= 1,
    ensures
        seed_queue(eff, i, acc).contains(x as usize),
    decreases eff.len() - i,
{
    if i < eff.len() {
        let acc1 = if eff[i] <= 1 {
            acc.push(i as usize)
        } else {
            acc
        };
        if i == x {
            lemma_seed_queue_prefix(eff, i + 1, acc1, acc1.len() - 1);
        } else {
            lemma_seed_queue_contains(eff, i + 1, acc1, x);
        }
    }
}

/// The accumulator is a prefix of the seeded queue.
proof fn lemma_seed_queue_prefix(eff: Seq<usize>, i: int, acc: Seq<usize>, k: int)
    requires
        eff.len() <= usize::MAX,
        0 <= i <= eff.len(),
        0 <= k < acc.len(),
    ensures
        seed_queue(eff, i, acc).len() >= acc.len(),
        seed_queue(eff, i, acc)[k] == acc[k],
    decreases eff.len() - i,
{
    if i < eff.len() {
        let acc1 = if eff[i] <= 1 {
            acc.push(i as usize)
        } else {
            acc
        };
        lemma_seed_queue_prefix(eff, i + 1, acc1, k);
    }
}

} // verus!
