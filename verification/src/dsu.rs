//! Disjoint-set union (union-find) with path compression and union by size,
//! carrying one counter per class (used by the closure tracker to count its
//! odd-degree members).
//!
//! The ghost field `rep` assigns every node its class representative; the
//! contracts of all operations are stated over that partition, so callers can
//! reason about classes without seeing the parent forest. The ghost field
//! `height` gives each parent link a strictly increasing measure, which is
//! what makes the `find` chains provably finite.

use vstd::prelude::*;

use crate::counts::count_eq;
use crate::counts::lemma_count_absent;
use crate::counts::lemma_count_distinct_pair;
use crate::counts::lemma_count_push;
use crate::counts::lemma_count_remap;
use crate::counts::remap;

verus! {

pub struct DSU {
    pub parent: Vec<usize>,
    pub size: Vec<usize>,
    pub odd_count: Vec<usize>,
    /// Class representative of every node.
    pub rep: Ghost<Seq<int>>,
    /// Strictly increases along parent links; bounds the `find` chains.
    pub height: Ghost<Seq<nat>>,
    pub max_height: Ghost<nat>,
}

impl DSU {
    /// Number of nodes.
    pub open spec fn n(self) -> int {
        self.parent@.len() as int
    }

    /// Representative of node `i`'s class.
    pub open spec fn root_of(self, i: int) -> int {
        self.rep@[i]
    }

    pub open spec fn wf(self) -> bool {
        let n = self.n();
        &&& self.size@.len() == n
        &&& self.odd_count@.len() == n
        &&& self.rep@.len() == n
        &&& self.height@.len() == n
        &&& forall|i: int| 0 <= i < n ==> (#[trigger] self.parent@[i]) < n
        &&& forall|i: int| 0 <= i < n ==> 0 <= (#[trigger] self.rep@[i]) < n
        &&& forall|i: int|
            0 <= i < n ==> self.parent@[#[trigger] self.rep@[i]] as int == self.rep@[i]
        &&& forall|i: int|
            0 <= i < n && (#[trigger] self.parent@[i]) as int == i ==> self.rep@[i] == i
        &&& forall|i: int|
            0 <= i < n ==> self.rep@[i] == self.rep@[(#[trigger] self.parent@[i]) as int]
        &&& forall|i: int|
            0 <= i < n && (#[trigger] self.parent@[i]) as int != i ==> self.height@[i]
                < self.height@[self.parent@[i] as int]
        &&& forall|i: int| 0 <= i < n ==> (#[trigger] self.height@[i]) <= self.max_height@
        &&& forall|i: int|
            0 <= i < n && (#[trigger] self.parent@[i]) as int == i ==> self.size@[i] as int
                == count_eq(self.rep@, i)
    }

    /// A node's height is below its representative's unless it is the root.
    proof fn lemma_height_below_rep(self, i: int)
        requires
            self.wf(),
            0 <= i < self.n(),
            self.rep@[i] != i,
        ensures
            self.height@[i] < self.height@[self.rep@[i]],
        decreases self.max_height@ - self.height@[i],
    {
        let p = self.parent@[i] as int;
        if p == self.rep@[i] {
        } else {
            self.lemma_height_below_rep(p);
        }
    }

    pub fn new() -> (d: DSU)
        ensures
            d.wf(),
            d.n() == 0,
    {
        DSU {
            parent: Vec::new(),
            size: Vec::new(),
            odd_count: Vec::new(),
            rep: Ghost(Seq::empty()),
            height: Ghost(Seq::empty()),
            max_height: Ghost(0),
        }
    }

    /// Creates a fresh singleton class and returns its node id.
    pub fn make_set(&mut self) -> (id: usize)
        requires
            old(self).wf(),
        ensures
            final(self).wf(),
            id as int == old(self).n(),
            final(self).n() == old(self).n() + 1,
            final(self).rep@ == old(self).rep@.push(id as int),
            final(self).odd_count@ == old(self).odd_count@.push(0),
            final(self).size@ == old(self).size@.push(1),
    {
        let id = self.parent.len();
        self.parent.push(id);
        self.size.push(1);
        self.odd_count.push(0);
        proof {
            self.rep@ = self.rep@.push(id as int);
            self.height@ = self.height@.push(0);
        }
        proof {
            let n = self.n();
            assert forall|r: int|
                0 <= r < n && (#[trigger] self.parent@[r]) as int == r implies self.size@[r] as int
                == count_eq(self.rep@, r) by {
                lemma_count_push(old(self).rep@, id as int, r);
                if r == id as int {
                    lemma_count_absent(old(self).rep@, r);
                }
            }
        }
        id
    }

    /// Returns the representative of `x`'s class, compressing the path
    /// walked; an out-of-range id is returned unchanged. The partition, the
    /// sizes and the counters are unchanged.
    pub fn find(&mut self, x: usize) -> (r: usize)
        requires
            old(self).wf(),
        ensures
            final(self).wf(),
            final(self).n() == old(self).n(),
            final(self).rep@ == old(self).rep@,
            final(self).odd_count@ == old(self).odd_count@,
            final(self).size@ == old(self).size@,
            final(self).max_height@ == old(self).max_height@,
            final(self).height@ == old(self).height@,
            (x as int) < old(self).n() ==> r as int == old(self).rep@[x as int],
            (x as int) >= old(self).n() ==> r == x && *final(self) == *old(self),
    {
        if x >= self.parent.len() {
            return x;
        }
        let mut root: usize = x;
        while self.parent[root] != root
            invariant
                self.wf(),
                *self == *old(self),
                (root as int) < self.n(),
                self.rep@[root as int] == self.rep@[x as int],
            decreases self.max_height@ - self.height@[root as int],
        {
            root = self.parent[root];
        }
        proof {
            assert(self.rep@[root as int] == root as int);
        }
        let mut cur: usize = x;
        while cur != root
            invariant
                self.wf(),
                self.n() == old(self).n(),
                self.rep@ == old(self).rep@,
                self.odd_count@ == old(self).odd_count@,
                self.size@ == old(self).size@,
                self.max_height@ == old(self).max_height@,
                self.height@ == old(self).height@,
                (cur as int) < self.n(),
                (root as int) < self.n(),
                self.rep@[root as int] == root as int,
                self.rep@[cur as int] == root as int,
                self.parent@[root as int] as int == root as int,
            decreases self.max_height@ - self.height@[cur as int],
        {
            proof {
                self.lemma_height_below_rep(cur as int);
            }
            let next = self.parent[cur];
            self.parent[cur] = root;
            cur = next;
        }
        root
    }

    /// After a union, the winning root of the two classes: the one of larger
    /// size, ties to the root of `x`.
    pub open spec fn union_winner(pre: DSU, rx: int, ry: int) -> int {
        if pre.size@[rx] < pre.size@[ry] {
            ry
        } else {
            rx
        }
    }

    /// Merges the classes of `x` and `y` (no effect if already one class);
    /// the loser's members are renamed to the winner and the counters of the
    /// two classes are summed at the winner.
    #[verifier::rlimit(100)]
    pub fn union(&mut self, x: usize, y: usize)
        requires
            old(self).wf(),
            (x as int) < old(self).n(),
            (y as int) < old(self).n(),
            old(self).rep@[x as int] != old(self).rep@[y as int] ==> old(self).odd_count@[old(
                self,
            ).rep@[x as int]] + old(self).odd_count@[old(self).rep@[y as int]] <= usize::MAX,
        ensures
            final(self).wf(),
            final(self).n() == old(self).n(),
            ({
                let rx = old(self).rep@[x as int];
                let ry = old(self).rep@[y as int];
                if rx == ry {
                    final(self).rep@ == old(self).rep@ && final(self).odd_count@ == old(
                        self,
                    ).odd_count@
                } else {
                    let w = DSU::union_winner(*old(self), rx, ry);
                    let l = if w == rx {
                        ry
                    } else {
                        rx
                    };
                    final(self).rep@ == remap(old(self).rep@, l, w) && final(self).odd_count@ == old(
                        self,
                    ).odd_count@.update(
                        w,
                        (old(self).odd_count@[rx] + old(self).odd_count@[ry]) as usize,
                    )
                }
            }),
    {
        let rx = self.find(x);
        let ry = self.find(y);
        if rx == ry {
            return ;
        }
        let (small, large) = if self.size[rx] < self.size[ry] {
            (rx, ry)
        } else {
            (ry, rx)
        };
        proof {
            lemma_count_distinct_pair(self.rep@, small as int, large as int);
            crate::counts::lemma_count_le_len(self.rep@, small as int);
            assert(self.parent@.len() == self.parent.len());
            assert(self.size@[small as int] as int == count_eq(self.rep@, small as int));
            assert(self.size@[large as int] as int == count_eq(self.rep@, large as int));
        }
        self.parent[small] = large;
        self.size[large] = self.size[small] + self.size[large];
        self.odd_count[large] = self.odd_count[small] + self.odd_count[large];
        proof {
            let pre = *old(self);
            let ghost mid_rep = self.rep@;
            let l = small as int;
            let w = large as int;
            let new_h: nat = if self.height@[w] > self.height@[l] {
                self.height@[w]
            } else {
                (self.height@[l] + 1) as nat
            };
            self.rep@ = remap(mid_rep, l, w);
            self.height@ = self.height@.update(w, new_h);
            self.max_height@ = if self.max_height@ > new_h {
                self.max_height@
            } else {
                new_h
            };
            let n = self.n();
            assert forall|r: int|
                0 <= r < n && (#[trigger] self.parent@[r]) as int == r implies self.size@[r] as int
                == count_eq(self.rep@, r) by {
                lemma_count_remap(mid_rep, l, w, r);
            }
            assert forall|i: int| 0 <= i < n implies (#[trigger] self.rep@[i]) == self.rep@[self.parent@[i] as int] by {
                if i == l {
                } else {
                }
            }
        }
    }

    /// The counter stored at the representative of `x`'s class.
    pub fn get_odd_count(&mut self, x: usize) -> (c: usize)
        requires
            old(self).wf(),
            (x as int) < old(self).n(),
        ensures
            final(self).wf(),
            final(self).n() == old(self).n(),
            final(self).rep@ == old(self).rep@,
            final(self).odd_count@ == old(self).odd_count@,
            final(self).size@ == old(self).size@,
            c == old(self).odd_count@[old(self).rep@[x as int]],
    {
        let root = self.find(x);
        self.odd_count[root]
    }

    /// Adds one to the counter of `x`'s class.
    #[verifier::rlimit(50)]
    pub fn increment_odd_count(&mut self, x: usize)
        requires
            old(self).wf(),
            (x as int) < old(self).n(),
            old(self).odd_count@[old(self).rep@[x as int]] < usize::MAX,
        ensures
            final(self).wf(),
            final(self).n() == old(self).n(),
            final(self).rep@ == old(self).rep@,
            final(self).size@ == old(self).size@,
            final(self).odd_count@ == old(self).odd_count@.update(
                old(self).rep@[x as int],
                (old(self).odd_count@[old(self).rep@[x as int]] + 1) as usize,
            ),
    {
        let root = self.find(x);
        self.odd_count[root] = self.odd_count[root] + 1;
    }

    /// Takes one from the counter of `x`'s class; an already-zero counter is
    /// left at zero.
    #[verifier::rlimit(50)]
    pub fn decrement_odd_count(&mut self, x: usize)
        requires
            old(self).wf(),
            (x as int) < old(self).n(),
        ensures
            final(self).wf(),
            final(self).n() == old(self).n(),
            final(self).rep@ == old(self).rep@,
            final(self).size@ == old(self).size@,
            final(self).odd_count@ == ({
                let r = old(self).rep@[x as int];
                if old(self).odd_count@[r] > 0 {
                    old(self).odd_count@.update(r, (old(self).odd_count@[r] - 1) as usize)
                } else {
                    old(self).odd_count@
                }
            }),
    {
        let root = self.find(x);
        if self.odd_count[root] > 0 {
            self.odd_count[root] = self.odd_count[root] - 1;
        } else {
            proof {
                assert(self.odd_count@ =~= old(self).odd_count@);
            }
        }
    }
}

} // verus!
