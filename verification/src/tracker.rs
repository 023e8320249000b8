//! Incremental closed-component tracker.
//!
//! Endpoints of every stored segment are clustered by a coarse snap key
//! (tolerance of two drawing units) into topological nodes; a union-find over
//! these nodes tracks, per connected component, how many member nodes have odd
//! degree. A component with no odd-degree node satisfies the (Eulerian)
//! necessary condition for admitting a fully closed boundary.
//!
//! The well-formedness invariant `GraphStore::wf` states the central law:
//! every class representative's stored counter equals the number of
//! odd-degree nodes of its class, recounted from the edge list.

use vstd::prelude::*;

use crate::counts::count_eq;
use crate::counts::lemma_count_distinct_pair;
use crate::counts::lemma_count_le_len;
use crate::counts::remap;
use crate::dsu::DSU;
use crate::geom::div_round_half_away;
use crate::geom::div_round_half_away_e;
use crate::geom::Pt;
use crate::geom::COORD_LIMIT;

verus! {

/// Coarse clustering tolerance: two drawing units, in subunits.
pub const SNAP_EPSILON: i64 = 2 * 1024;

/// Snapped grid key for clustering endpoints that are merely close.
///
/// This is deliberately much coarser than the exact node identity the
/// arrangement builder uses (which merges only points with identical
/// subunit coordinates); the two resolutions serve different invariants
/// and are kept as separate utilities.
#[derive(Clone, Copy, PartialEq, Eq, Structural, Debug)]
pub struct SnapKey(pub i64, pub i64);

impl SnapKey {
    /// The grid key of a point: each coordinate divided by the tolerance and
    /// rounded to the nearest integer (ties away from zero).
    pub open spec fn of_point_spec(x: int, y: int) -> SnapKey {
        SnapKey(
            div_round_half_away(x, SNAP_EPSILON as int) as i64,
            div_round_half_away(y, SNAP_EPSILON as int) as i64,
        )
    }

    pub fn from_point(x: i64, y: i64) -> (k: SnapKey)
        requires
            -COORD_LIMIT <= x <= COORD_LIMIT,
            -COORD_LIMIT <= y <= COORD_LIMIT,
        ensures
            k == SnapKey::of_point_spec(x as int, y as int),
    {
        SnapKey(div_round_half_away_e(x, SNAP_EPSILON), div_round_half_away_e(y, SNAP_EPSILON))
    }
}

/// A clustered endpoint node: its grid key, a witness position, and its raw
/// degree (number of stored segment endpoints snapped to it).
#[derive(Clone, Copy, PartialEq, Eq, Structural, Debug)]
pub struct Node {
    pub key: SnapKey,
    pub p: Pt,
    pub degree: usize,
}

/// A stored segment between two clustered nodes, keeping the raw endpoint
/// coordinates and the index of the drawn line it came from.
#[derive(Clone, Copy, PartialEq, Eq, Structural, Debug)]
pub struct Edge {
    pub a: usize,
    pub b: usize,
    pub pa: Pt,
    pub pb: Pt,
    pub line_idx: usize,
}

/// Number of endpoints of edges in `edges` incident to node `i`.
pub open spec fn incidence(edges: Seq<Edge>, i: int) -> int
    decreases edges.len(),
{
    if edges.len() == 0 {
        0
    } else {
        incidence(edges.drop_last(), i) + (if edges.last().a == i {
            1int
        } else {
            0int
        }) + (if edges.last().b == i {
            1int
        } else {
            0int
        })
    }
}

/// Number of nodes of class `r` whose degree is odd.
pub open spec fn odd_in_class(rep: Seq<int>, deg: Seq<int>, r: int) -> nat
    decreases rep.len(),
{
    if rep.len() == 0 || rep.len() != deg.len() {
        0
    } else {
        odd_in_class(rep.drop_last(), deg.drop_last(), r) + (if rep.last() == r && deg.last() % 2
            == 1 {
            1nat
        } else {
            0nat
        })
    }
}

proof fn lemma_incidence_push(edges: Seq<Edge>, e: Edge, i: int)
    ensures
        incidence(edges.push(e), i) == incidence(edges, i) + (if e.a == i {
            1int
        } else {
            0int
        }) + (if e.b == i {
            1int
        } else {
            0int
        }),
{
    assert(edges.push(e).drop_last() =~= edges);
}

proof fn lemma_incidence_le(edges: Seq<Edge>, i: int)
    ensures
        0 <= incidence(edges, i) <= 2 * edges.len(),
    decreases edges.len(),
{
    if edges.len() > 0 {
        lemma_incidence_le(edges.drop_last(), i);
    }
}

proof fn lemma_incidence_absent(edges: Seq<Edge>, i: int)
    requires
        forall|k: int| 0 <= k < edges.len() ==> (#[trigger] edges[k]).a != i && edges[k].b != i,
    ensures
        incidence(edges, i) == 0,
    decreases edges.len(),
{
    if edges.len() > 0 {
        lemma_incidence_absent(edges.drop_last(), i);
    }
}

proof fn lemma_odd_push(rep: Seq<int>, deg: Seq<int>, rv: int, dv: int, r: int)
    requires
        rep.len() == deg.len(),
    ensures
        odd_in_class(rep.push(rv), deg.push(dv), r) == odd_in_class(rep, deg, r) + (if rv == r && dv
            % 2 == 1 {
            1nat
        } else {
            0nat
        }),
{
    assert(rep.push(rv).drop_last() =~= rep);
    assert(deg.push(dv).drop_last() =~= deg);
}

proof fn lemma_odd_absent(rep: Seq<int>, deg: Seq<int>, r: int)
    requires
        forall|i: int| 0 <= i < rep.len() ==> rep[i] != r,
    ensures
        odd_in_class(rep, deg, r) == 0,
    decreases rep.len(),
{
    if rep.len() > 0 && rep.len() == deg.len() {
        lemma_odd_absent(rep.drop_last(), deg.drop_last(), r);
    }
}

proof fn lemma_odd_deg_update(rep: Seq<int>, deg: Seq<int>, i: int, v: int, r: int)
    requires
        rep.len() == deg.len(),
        0 <= i < rep.len(),
    ensures
        odd_in_class(rep, deg.update(i, v), r) == odd_in_class(rep, deg, r) + (if rep[i] == r && v
            % 2 == 1 {
            1int
        } else {
            0int
        }) - (if rep[i] == r && deg[i] % 2 == 1 {
            1int
        } else {
            0int
        }),
    decreases rep.len(),
{
    let t = deg.update(i, v);
    if i == rep.len() - 1 {
        assert(t.drop_last() =~= deg.drop_last());
    } else {
        assert(t.drop_last() =~= deg.drop_last().update(i, v));
        lemma_odd_deg_update(rep.drop_last(), deg.drop_last(), i, v, r);
    }
}

proof fn lemma_odd_remap(rep: Seq<int>, deg: Seq<int>, l: int, w: int, r: int)
    requires
        rep.len() == deg.len(),
        l != w,
    ensures
        r == w ==> odd_in_class(remap(rep, l, w), deg, r) == odd_in_class(rep, deg, w)
            + odd_in_class(rep, deg, l),
        r != w && r != l ==> odd_in_class(remap(rep, l, w), deg, r) == odd_in_class(rep, deg, r),
    decreases rep.len(),
{
    if rep.len() > 0 {
        assert(remap(rep, l, w).drop_last() =~= remap(rep.drop_last(), l, w));
        lemma_odd_remap(rep.drop_last(), deg.drop_last(), l, w, r);
    }
}

/// The odd count of a class never exceeds the class size.
proof fn lemma_odd_le_class(rep: Seq<int>, deg: Seq<int>, r: int)
    requires
        rep.len() == deg.len(),
    ensures
        odd_in_class(rep, deg, r) <= count_eq(rep, r),
    decreases rep.len(),
{
    if rep.len() > 0 {
        lemma_odd_le_class(rep.drop_last(), deg.drop_last(), r);
    }
}

/// An even-degree member keeps the odd count strictly below the class size.
proof fn lemma_odd_lt_class(rep: Seq<int>, deg: Seq<int>, i: int)
    requires
        rep.len() == deg.len(),
        0 <= i < rep.len(),
        deg[i] % 2 != 1,
    ensures
        odd_in_class(rep, deg, rep[i]) < count_eq(rep, rep[i]),
    decreases rep.len(),
{
    if i == rep.len() - 1 {
        lemma_odd_le_class(rep.drop_last(), deg.drop_last(), rep[i]);
    } else {
        lemma_odd_lt_class(rep.drop_last(), deg.drop_last(), i);
    }
}

/// An odd-degree member keeps the odd count positive.
proof fn lemma_odd_member(rep: Seq<int>, deg: Seq<int>, i: int)
    requires
        rep.len() == deg.len(),
        0 <= i < rep.len(),
        deg[i] % 2 == 1,
    ensures
        odd_in_class(rep, deg, rep[i]) >= 1,
    decreases rep.len(),
{
    if i < rep.len() - 1 {
        lemma_odd_member(rep.drop_last(), deg.drop_last(), i);
    }
}

/// The per-class counters agree with an independent recount of the
/// odd-degree members of every class.
pub open spec fn parity_ok(d: DSU, degs: Seq<int>) -> bool {
    forall|r: int|
        0 <= r < d.n() && (#[trigger] d.rep@[r]) == r ==> d.odd_count@[r] == odd_in_class(
            d.rep@,
            degs,
            r,
        )
}

/// Incremental graph store for tracking closed components.
pub struct GraphStore {
    pub nodes: Vec<Node>,
    pub edges: Vec<Edge>,
    pub dsu: DSU,
}

impl GraphStore {
    /// Degrees of all nodes, as a spec sequence.
    pub open spec fn degrees(self) -> Seq<int> {
        Seq::new(self.nodes@.len(), |i: int| self.nodes@[i].degree as int)
    }

    pub open spec fn n(self) -> int {
        self.nodes@.len() as int
    }

    pub open spec fn wf(self) -> bool {
        &&& self.dsu.wf()
        &&& self.dsu.n() == self.n()
        &&& forall|i: int, j: int|
            0 <= i < j < self.n() ==> (#[trigger] self.nodes@[i]).key != (
            #[trigger] self.nodes@[j]).key
        &&& forall|k: int|
            0 <= k < self.edges@.len() ==> (#[trigger] self.edges@[k]).a < self.n()
                && self.edges@[k].b < self.n()
        &&& forall|i: int|
            0 <= i < self.n() ==> (#[trigger] self.nodes@[i]).degree as int == incidence(
                self.edges@,
                i,
            )
        &&& parity_ok(self.dsu, self.degrees())
    }

    pub fn new() -> (g: GraphStore)
        ensures
            g.wf(),
            g.n() == 0,
            g.edges@.len() == 0,
    {
        GraphStore { nodes: Vec::new(), edges: Vec::new(), dsu: DSU::new() }
    }

    pub fn clear(&mut self)
        ensures
            final(self).wf(),
            final(self).n() == 0,
            final(self).edges@.len() == 0,
    {
        self.nodes = Vec::new();
        self.edges = Vec::new();
        self.dsu = DSU::new();
    }

    pub fn node_count(&self) -> (c: usize)
        ensures
            c as int == self.n(),
    {
        self.nodes.len()
    }

    pub fn edge_count(&self) -> (c: usize)
        ensures
            c as int == self.edges@.len(),
    {
        self.edges.len()
    }

    pub fn get_node(&self, node_id: usize) -> (n: Option<&Node>)
        ensures
            node_id < self.nodes@.len() ==> n == Some(&self.nodes@[node_id as int]),
            node_id >= self.nodes@.len() ==> n is None,
    {
        if node_id < self.nodes.len() {
            Some(&self.nodes[node_id])
        } else {
            None
        }
    }

    pub fn get_edge(&self, edge_id: usize) -> (e: Option<&Edge>)
        ensures
            edge_id < self.edges@.len() ==> e == Some(&self.edges@[edge_id as int]),
            edge_id >= self.edges@.len() ==> e is None,
    {
        if edge_id < self.edges.len() {
            Some(&self.edges[edge_id])
        } else {
            None
        }
    }

    /// The node whose key matches the snapped point, created as a fresh
    /// singleton class if no node has that key yet.
    fn get_or_create_node(&mut self, p: Pt) -> (id: usize)
        requires
            old(self).wf(),
            crate::geom::pt_in_range(p),
        ensures
            final(self).wf(),
            final(self).edges@ == old(self).edges@,
            (id as int) < final(self).n(),
            final(self).nodes@[id as int].key == SnapKey::of_point_spec(p.x as int, p.y as int),
            (exists|i: int|
                0 <= i < old(self).n() && (#[trigger] old(self).nodes@[i]).key
                    == SnapKey::of_point_spec(p.x as int, p.y as int)) ==> *final(self) == *old(
                self,
            ) && old(self).nodes@[id as int].key == SnapKey::of_point_spec(
                p.x as int,
                p.y as int,
            ),
            !(exists|i: int|
                0 <= i < old(self).n() && (#[trigger] old(self).nodes@[i]).key
                    == SnapKey::of_point_spec(p.x as int, p.y as int)) ==> {
                &&& id as int == old(self).n()
                &&& final(self).nodes@ == old(self).nodes@.push(
                    Node { key: SnapKey::of_point_spec(p.x as int, p.y as int), p, degree: 0 },
                )
                &&& final(self).dsu.rep@ == old(self).dsu.rep@.push(id as int)
            },
    {
        let key = SnapKey::from_point(p.x, p.y);
        let n = self.nodes.len();
        let mut i: usize = 0;
        while i < n
            invariant
                *self == *old(self),
                self.wf(),
                n as int == self.n(),
                i <= n,
                forall|j: int| 0 <= j < i ==> (#[trigger] self.nodes@[j]).key != key,
                key == SnapKey::of_point_spec(p.x as int, p.y as int),
            decreases n - i,
        {
            if self.nodes[i].key == key {
                return i;
            }
            i += 1;
        }
        let id = self.dsu.make_set();
        self.nodes.push(Node { key, p, degree: 0 });
        proof {
            let pre = *old(self);
            let nn = self.n();
            assert(self.degrees() =~= pre.degrees().push(0));
            assert forall|r: int|
                0 <= r < nn && (#[trigger] self.dsu.rep@[r]) == r implies self.dsu.odd_count@[r]
                == odd_in_class(self.dsu.rep@, self.degrees(), r) by {
                lemma_odd_push(pre.dsu.rep@, pre.degrees(), id as int, 0, r);
                if r == id as int {
                    lemma_odd_absent(pre.dsu.rep@, pre.degrees(), r);
                }
            }
            assert forall|i2: int| 0 <= i2 < nn implies (#[trigger] self.nodes@[i2]).degree as int
                == incidence(self.edges@, i2) by {
                if i2 == id as int {
                    lemma_incidence_absent(self.edges@, i2);
                }
            }
        }
        id
    }

    /// Resolves both endpoints to clustered nodes, flips the per-class odd
    /// counters as each endpoint's degree changes parity, merges the two
    /// classes and stores the edge.
    /// Raises `node`'s degree by one and flips its class's odd counter to
    /// match the parity change.
    fn bump_endpoint(&mut self, node: usize)
        requires
            old(self).dsu.wf(),
            old(self).dsu.n() == old(self).n(),
            (node as int) < old(self).n(),
            parity_ok(old(self).dsu, old(self).degrees()),
            old(self).nodes@[node as int].degree < usize::MAX,
        ensures
            final(self).dsu.wf(),
            final(self).dsu.n() == old(self).dsu.n(),
            final(self).dsu.rep@ == old(self).dsu.rep@,
            final(self).edges@ == old(self).edges@,
            final(self).nodes@ == old(self).nodes@.update(
                node as int,
                Node {
                    key: old(self).nodes@[node as int].key,
                    p: old(self).nodes@[node as int].p,
                    degree: (old(self).nodes@[node as int].degree + 1) as usize,
                },
            ),
            parity_ok(final(self).dsu, final(self).degrees()),
    {
        let nd = self.nodes[node];
        let d0 = nd.degree;
        self.nodes[node] = Node { key: nd.key, p: nd.p, degree: d0 + 1 };
        let ghost pre = *old(self);
        proof {
            assert(self.degrees() =~= pre.degrees().update(node as int, d0 + 1));
        }
        if d0 % 2 == 0 {
            proof {
                lemma_odd_lt_class(pre.dsu.rep@, pre.degrees(), node as int);
                lemma_count_le_len(pre.dsu.rep@, pre.dsu.rep@[node as int]);
                assert(pre.dsu.parent@.len() == pre.dsu.parent.len());
            }
            self.dsu.increment_odd_count(node);
        } else {
            proof {
                lemma_odd_member(pre.dsu.rep@, pre.degrees(), node as int);
            }
            self.dsu.decrement_odd_count(node);
        }
        proof {
            assert forall|r: int|
                0 <= r < self.dsu.n() && (#[trigger] self.dsu.rep@[r]) == r implies self.dsu.odd_count@[r] == odd_in_class(self.dsu.rep@, self.degrees(), r) by {
                lemma_odd_deg_update(pre.dsu.rep@, pre.degrees(), node as int, d0 + 1, r);
            }
        }
    }

    /// Resolves both endpoints to clustered nodes, flips the per-class odd
    /// counters as each endpoint's degree changes parity, merges the two
    /// classes and stores the edge.
    #[verifier::rlimit(60)]
    pub fn add_segment(&mut self, pa: Pt, pb: Pt, line_idx: usize) -> (edge_id: usize)
        requires
            old(self).wf(),
            crate::geom::pt_in_range(pa),
            crate::geom::pt_in_range(pb),
            old(self).edges@.len() < 0x2000_0000,
        ensures
            final(self).wf(),
            final(self).edges@.len() == old(self).edges@.len() + 1,
            edge_id as int == old(self).edges@.len(),
            final(self).edges@ == old(self).edges@.push(final(self).edges@.last()),
            forall|i: int|
                0 <= i < old(self).n() ==> final(self).dsu.rep@[i] == old(self).dsu.rep@[i]
                    || final(self).dsu.rep@[i]
                    == final(self).dsu.rep@[final(self).edges@.last().a as int],
            ({
                let e = final(self).edges@.last();
                &&& e.pa == pa
                &&& e.pb == pb
                &&& e.line_idx == line_idx
                &&& (e.a as int) < final(self).n()
                &&& (e.b as int) < final(self).n()
                &&& final(self).nodes@[e.a as int].key == SnapKey::of_point_spec(
                    pa.x as int,
                    pa.y as int,
                )
                &&& final(self).nodes@[e.b as int].key == SnapKey::of_point_spec(
                    pb.x as int,
                    pb.y as int,
                )
                &&& final(self).dsu.rep@[e.a as int] == final(self).dsu.rep@[e.b as int]
            }),
            forall|i: int|
                0 <= i < old(self).n() ==> (#[trigger] final(self).nodes@[i]).key == old(
                    self,
                ).nodes@[i].key && final(self).nodes@[i].p == old(self).nodes@[i].p,
            old(self).n() <= final(self).n() <= old(self).n() + 2,
    {
        let node_a = self.get_or_create_node(pa);
        let node_b = self.get_or_create_node(pb);
        let ghost s2 = *self;
        proof {
            lemma_incidence_le(self.edges@, node_a as int);
            lemma_incidence_le(self.edges@, node_b as int);
            assert(s2.edges@ == old(self).edges@);
        }
        self.bump_endpoint(node_a);
        let ghost da = s2.nodes@[node_a as int].degree as int;
        let ghost db = if node_a == node_b { da + 1 } else { s2.nodes@[node_b as int].degree as int };
        proof {
            assert(self.nodes@[node_b as int].degree as int == db);
        }
        self.bump_endpoint(node_b);
        let ghost s4 = *self;
        if node_a != node_b {
            proof {
                let rx = s4.dsu.rep@[node_a as int];
                let ry = s4.dsu.rep@[node_b as int];
                if rx != ry {
                    lemma_odd_le_class(s4.dsu.rep@, s4.degrees(), rx);
                    lemma_odd_le_class(s4.dsu.rep@, s4.degrees(), ry);
                    lemma_count_distinct_pair(s4.dsu.rep@, rx, ry);
                    lemma_count_le_len(s4.dsu.rep@, rx);
                    assert(s4.dsu.parent@.len() == s4.dsu.parent.len());
                }
            }
            self.dsu.union(node_a, node_b);
            proof {
                let rx = s4.dsu.rep@[node_a as int];
                let ry = s4.dsu.rep@[node_b as int];
                if rx != ry {
                    let w = DSU::union_winner(s4.dsu, rx, ry);
                    let l = if w == rx {
                        ry
                    } else {
                        rx
                    };
                    assert forall|r: int|
                        0 <= r < self.dsu.n() && (#[trigger] self.dsu.rep@[r]) == r implies self.dsu.odd_count@[r] == odd_in_class(self.dsu.rep@, self.degrees(), r) by {
                        lemma_odd_remap(s4.dsu.rep@, s4.degrees(), l, w, r);
                        if r != w {
                            assert(s4.dsu.rep@[r] == r);
                        }
                    }
                }
            }
        }
        let ghost s5 = *self;
        let edge_id = self.edges.len();
        self.edges.push(Edge { a: node_a, b: node_b, pa, pb, line_idx });
        proof {
            let e = Edge { a: node_a, b: node_b, pa, pb, line_idx };
            assert forall|i: int| 0 <= i < self.n() implies (#[trigger] self.nodes@[i]).degree as int
                == incidence(self.edges@, i) by {
                lemma_incidence_push(s5.edges@, e, i);
                assert(s5.degrees()[i] == s5.nodes@[i].degree as int);
                assert(s2.degrees()[i] == s2.nodes@[i].degree as int);
            }
            assert(self.edges@ =~= old(self).edges@.push(self.edges@.last()));
            // component isolation: only the endpoints' classes were merged
            assert forall|i: int|
                0 <= i < old(self).n() implies self.dsu.rep@[i] == old(self).dsu.rep@[i]
                || self.dsu.rep@[i] == self.dsu.rep@[node_a as int] by {
                assert(s2.dsu.rep@[i] == old(self).dsu.rep@[i]);
                let rx = s4.dsu.rep@[node_a as int];
                let ry = s4.dsu.rep@[node_b as int];
                if node_a != node_b && rx != ry {
                    let w = DSU::union_winner(s4.dsu, rx, ry);
                    let l = if w == rx {
                        ry
                    } else {
                        rx
                    };
                    assert(self.dsu.rep@ == remap(s4.dsu.rep@, l, w));
                    assert(self.dsu.rep@[node_a as int] == w);
                }
            }
        }
        edge_id
    }

    /// Whether the component of edge `edge_id` currently has no odd-degree
    /// node (the Eulerian necessary condition for a closed boundary).
    pub open spec fn edge_closed(self, edge_id: int) -> bool {
        &&& 0 <= edge_id < self.edges@.len()
        &&& odd_in_class(
            self.dsu.rep@,
            self.degrees(),
            self.dsu.rep@[self.edges@[edge_id].a as int],
        ) == 0
    }

    /// True iff the edge exists and every node of its component has even
    /// degree.
    pub fn is_edge_closed(&mut self, edge_id: usize) -> (c: bool)
        requires
            old(self).wf(),
        ensures
            final(self).wf(),
            final(self).nodes@ == old(self).nodes@,
            final(self).edges@ == old(self).edges@,
            final(self).dsu.rep@ == old(self).dsu.rep@,
            final(self).dsu.odd_count@ == old(self).dsu.odd_count@,
            c == old(self).edge_closed(edge_id as int),
    {
        if edge_id >= self.edges.len() {
            return false;
        }
        let a = self.edges[edge_id].a;
        let odd = self.dsu.get_odd_count(a);
        proof {
            let r = old(self).dsu.rep@[a as int];
            assert(old(self).dsu.parent@[r] as int == r);
            assert(old(self).dsu.rep@[r] == r);
        }
        odd == 0
    }

    /// The edge ids, in increasing order, whose component is closed after the
    /// first `upto` edges are considered.
    pub open spec fn closed_ids(self, upto: int) -> Seq<usize>
        decreases upto,
    {
        if upto <= 0 {
            Seq::empty()
        } else {
            self.closed_ids(upto - 1) + (if self.edge_closed(upto - 1) {
                seq![((upto - 1) as usize)]
            } else {
                Seq::empty()
            })
        }
    }

    /// All edge ids whose component is closed, in increasing order.
    pub fn closed_edges(&mut self) -> (r: Vec<usize>)
        requires
            old(self).wf(),
        ensures
            final(self).wf(),
            final(self).nodes@ == old(self).nodes@,
            final(self).edges@ == old(self).edges@,
            final(self).dsu.rep@ == old(self).dsu.rep@,
            final(self).dsu.odd_count@ == old(self).dsu.odd_count@,
            r@ == old(self).closed_ids(old(self).edges@.len() as int),
    {
        let mut r: Vec<usize> = Vec::new();
        let n = self.edges.len();
        let mut i: usize = 0;
        while i < n
            invariant
                old(self).wf(),
                self.wf(),
                self.nodes@ == old(self).nodes@,
                self.edges@ == old(self).edges@,
                self.dsu.rep@ == old(self).dsu.rep@,
                self.dsu.odd_count@ == old(self).dsu.odd_count@,
                n as int == self.edges@.len(),
                i <= n,
                r@ == old(self).closed_ids(i as int),
            decreases n - i,
        {
            let ghost degs = self.degrees();
            let c = self.is_edge_closed(i);
            proof {
                assert(self.degrees() =~= degs);
                assert(self.edge_closed(i as int) == old(self).edge_closed(i as int));
            }
            if c {
                r.push(i);
            }
            i += 1;
        }
        r
    }
}

/// Builds a tracker from a raw line list, one segment per line, in order:
/// the tracker that runs independently off the editor's stored lines.
pub fn tracker_of_lines(lines: &Vec<crate::geom::LineSeg>) -> (g: GraphStore)
    requires
        crate::arrange::lines_in_range(lines@),
        lines@.len() < 0x2000_0000,
    ensures
        g.wf(),
        g.edges@.len() == lines@.len(),
        forall|k: int|
            0 <= k < lines@.len() ==> (#[trigger] g.edges@[k]).pa == lines@[k].a && g.edges@[k].pb
                == lines@[k].b && g.edges@[k].line_idx == k,
{
    let mut g = GraphStore::new();
    let n = lines.len();
    let mut i: usize = 0;
    while i < n
        invariant
            crate::arrange::lines_in_range(lines@),
            n == lines@.len(),
            n < 0x2000_0000,
            i <= n,
            g.wf(),
            g.edges@.len() == i,
            forall|k: int|
                0 <= k < i ==> (#[trigger] g.edges@[k]).pa == lines@[k].a && g.edges@[k].pb
                    == lines@[k].b && g.edges@[k].line_idx == k,
        decreases n - i,
    {
        let l = lines[i];
        g.add_segment(l.a, l.b, i);
        i += 1;
    }
    g
}

/// Union-find integrity: every representative is a self-parented root with a
/// valid id.
pub proof fn lemma_dsu_integrity(g: GraphStore, i: int)
    requires
        g.wf(),
        0 <= i < g.n(),
    ensures
        0 <= g.dsu.rep@[i] < g.n(),
        g.dsu.parent@[g.dsu.rep@[i]] as int == g.dsu.rep@[i],
{
}

/// For every component at all times, the tracked odd count stored at the
/// class representative equals the number of member nodes whose degree is
/// odd, recounted independently from the stored edges.
pub proof fn lemma_component_parity(g: GraphStore, r: int)
    requires
        g.wf(),
        0 <= r < g.n(),
        g.dsu.rep@[r] == r,
    ensures
        g.dsu.odd_count@[r] == odd_in_class(g.dsu.rep@, g.degrees(), r),
{
}

} // verus!
