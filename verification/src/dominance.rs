//! Dominators and post-dominators of the nodes of a derivative graph.
use crate::error::Error;
use crate::graph::Deriv;
use std::collections::HashSet;
use vstd::prelude::*;

verus! {

/// The sets that hashed sets hold.
pub open spec fn set_views(v: Seq<HashSet<usize>>) -> Seq<Set<usize>> {
    Seq::new(v.len(), |i: int| v[i]@)
}

/// The nodes on the way from `n` up the tree of immediate dominators: `n`,
/// the entry for `n`, the entry for that, and so on up to the last node,
/// which is the root.
pub open spec fn chain(doms: Seq<Option<usize>>, n: int) -> Set<int>
    decreases doms.len() - n,
{
    if 0 <= n < doms.len() - 1 && doms[n] is Some && n < doms[n].unwrap() < doms.len() {
        chain(doms, doms[n].unwrap() as int).insert(n)
    } else {
        set![n]
    }
}

/// Whether every node from `lo` on, but the root, has an entry, and the entry
/// is a node with a greater number.
pub open spec fn climbs(doms: Seq<Option<usize>>, lo: int) -> bool {
    forall|w: int|
        lo <= w < doms.len() - 1 ==> (#[trigger] doms[w]) is Some && w < doms[w].unwrap()
            < doms.len()
}

/// The way up from `n` holds `n` and, besides, only greater nodes.
pub proof fn lemma_chain_bounds(doms: Seq<Option<usize>>, n: int)
    requires
        0 <= n < doms.len(),
    ensures
        chain(doms, n).contains(n),
        forall|x: int| #[trigger] chain(doms, n).contains(x) ==> n <= x < doms.len(),
    decreases doms.len() - n,
{
    if 0 <= n < doms.len() - 1 && doms[n] is Some && n < doms[n].unwrap() < doms.len() {
        lemma_chain_bounds(doms, doms[n].unwrap() as int);
    }
}

/// The way up from `n` depends on the entries from `n` on only.
pub proof fn lemma_chain_agree(a: Seq<Option<usize>>, b: Seq<Option<usize>>, n: int)
    requires
        a.len() == b.len(),
        0 <= n,
        forall|w: int| n <= w < a.len() ==> a[w] == b[w],
    ensures
        chain(a, n) == chain(b, n),
    decreases a.len() - n,
{
    if 0 <= n < a.len() - 1 && a[n] is Some && n < a[n].unwrap() < a.len() {
        lemma_chain_agree(a, b, a[n].unwrap() as int);
    }
}

/// Where every node from `lo` on, but the root, has an entry with a greater
/// number, the way up from such a node ends at the root.
pub proof fn lemma_chain_reaches_root(doms: Seq<Option<usize>>, lo: int, n: int)
    requires
        climbs(doms, lo),
        0 <= lo <= n < doms.len(),
    ensures
        chain(doms, n).contains(doms.len() - 1),
    decreases doms.len() - n,
{
    if n < doms.len() - 1 {
        assert(doms[n] is Some);
        lemma_chain_reaches_root(doms, lo, doms[n].unwrap() as int);
    }
}

/// The nearest node that the ways up from `b1` and from `b2` share: what is
/// above it is what the two ways have in common. The two ways must meet.
pub fn intersect(b1: usize, b2: usize, doms: &Vec<Option<usize>>) -> (r: usize)
    requires
        b1 < doms@.len(),
        b2 < doms@.len(),
        exists|m: int|
            chain(doms@, b1 as int).contains(m) && #[trigger] chain(doms@, b2 as int).contains(m),
    ensures
        r < doms@.len(),
        b1 <= r,
        b2 <= r,
        chain(doms@, r as int) == chain(doms@, b1 as int).intersect(chain(doms@, b2 as int)),
{
    let mut a = b1;
    let mut b = b2;
    let ghost meet = choose|m: int|
        chain(doms@, b1 as int).contains(m) && #[trigger] chain(doms@, b2 as int).contains(m);
    while a != b
        invariant
            b1 <= a < doms@.len(),
            b2 <= b < doms@.len(),
            chain(doms@, a as int).contains(meet),
            chain(doms@, b as int).contains(meet),
            chain(doms@, a as int).intersect(chain(doms@, b as int)) == chain(
                doms@,
                b1 as int,
            ).intersect(chain(doms@, b2 as int)),
        decreases (doms@.len() - a) + (doms@.len() - b),
    {
        proof {
            lemma_chain_bounds(doms@, a as int);
            lemma_chain_bounds(doms@, b as int);
        }
        if a < b {
            assert(meet != a);
            let up = doms[a].unwrap();
            assert(chain(doms@, up as int).intersect(chain(doms@, b as int)) =~= chain(
                doms@,
                a as int,
            ).intersect(chain(doms@, b as int)));
            a = up;
        } else {
            assert(meet != b);
            let up = doms[b].unwrap();
            assert(chain(doms@, a as int).intersect(chain(doms@, up as int)) =~= chain(
                doms@,
                a as int,
            ).intersect(chain(doms@, b as int)));
            b = up;
        }
    }
    assert(chain(doms@, a as int).intersect(chain(doms@, a as int)) =~= chain(doms@, a as int));
    a
}

impl Deriv {
    /// Whether the nodes of `p` are joined by edges, each to the next.
    pub open spec fn is_path(&self, p: Seq<int>) -> bool {
        &&& p.len() >= 1
        &&& forall|k: int| 0 <= k < p.len() ==> 0 <= #[trigger] p[k] < self.size
        &&& forall|k: int| 0 <= k < p.len() - 1 ==> self.has_edge(#[trigger] p[k], p[k + 1])
    }

    /// Whether `d` dominates `n`: every path from the root to `n` passes
    /// through `d`.
    pub open spec fn dominates(&self, d: int, n: int) -> bool {
        forall|p: Seq<int>|
            #[trigger] self.is_path(p) && p[0] == self.root && p.last() == n ==> p.contains(d)
    }

    /// Whether `d` post-dominates `n`: every path from `n` to a leaf passes
    /// through `d`.
    pub open spec fn post_dominates(&self, d: int, n: int) -> bool {
        forall|p: Seq<int>|
            #[trigger] self.is_path(p) && p[0] == n && self.leafs@.contains_key(p.last() as usize)
                ==> p.contains(d)
    }

    /// The root is dominated by itself alone.
    pub proof fn lemma_dominators_of_root(&self, d: int)
        requires
            self.wf(),
        ensures
            self.dominates(d, self.root as int) <==> d == self.root,
    {
        let root = self.root as int;
        if self.dominates(d, root) {
            let p = seq![root];
            assert(self.is_path(p));
            assert(p.contains(d));
        }
        if d == root {
            assert forall|p: Seq<int>|
                #[trigger] self.is_path(p) && p[0] == self.root && p.last() == root implies p.contains(
                d,
            ) by {
                assert(p[0] == d);
            }
        }
    }

    /// A node other than the root is dominated by itself and by what
    /// dominates every node that has an edge to it.
    pub proof fn lemma_dominators_of_node(&self, d: int, n: int)
        requires
            self.wf(),
            0 <= n < self.root,
        ensures
            self.dominates(d, n) <==> d == n || forall|v: int|
                0 <= v < self.size && #[trigger] self.has_edge(v, n) ==> self.dominates(d, v),
    {
        if self.dominates(d, n) && d != n {
            assert forall|v: int| 0 <= v < self.size && #[trigger] self.has_edge(v, n) implies self.dominates(
                d,
                v,
            ) by {
                assert forall|q: Seq<int>|
                    #[trigger] self.is_path(q) && q[0] == self.root && q.last() == v implies q.contains(
                    d,
                ) by {
                    let p = q.push(n);
                    assert forall|k: int| 0 <= k < p.len() - 1 implies self.has_edge(
                        #[trigger] p[k],
                        p[k + 1],
                    ) by {
                        if k < q.len() - 1 {
                            assert(self.has_edge(q[k], q[k + 1]));
                        }
                    }
                    assert(self.is_path(p));
                    assert(p[0] == q[0]);
                    assert(p.contains(d));
                    let k = choose|k: int| 0 <= k < p.len() && p[k] == d;
                    assert(q[k] == d);
                }
            }
        }
        if d == n {
            assert forall|p: Seq<int>|
                #[trigger] self.is_path(p) && p[0] == self.root && p.last() == n implies p.contains(
                d,
            ) by {
                assert(p[p.len() - 1] == d);
            }
        }
        if forall|v: int|
            0 <= v < self.size && #[trigger] self.has_edge(v, n) ==> self.dominates(d, v) {
            assert forall|p: Seq<int>|
                #[trigger] self.is_path(p) && p[0] == self.root && p.last() == n implies p.contains(
                d,
            ) by {
                let q = p.drop_last();
                let v = p[p.len() - 2];
                assert(self.has_edge(p[p.len() - 2], p[p.len() - 2 + 1]));
                assert forall|k: int| 0 <= k < q.len() - 1 implies self.has_edge(
                    #[trigger] q[k],
                    q[k + 1],
                ) by {
                    assert(self.has_edge(p[k], p[k + 1]));
                }
                assert(self.is_path(q));
                assert(q[0] == p[0]);
                assert(self.dominates(d, v));
                assert(q.contains(d));
                let k = choose|k: int| 0 <= k < q.len() && q[k] == d;
                assert(p[k] == d);
            }
        }
    }
}

impl Deriv {
    /// Whether the entries of the nodes above `u` are final: each of them,
    /// but the root, has an entry with a greater number, and the way up from
    /// it holds exactly its dominators.
    pub open spec fn settled_above(&self, doms: Seq<Option<usize>>, u: int) -> bool {
        &&& doms.len() == self.size
        &&& doms[self.root as int] == Some(self.root)
        &&& climbs(doms, u + 1)
        &&& forall|w: int, d: int|
            u < w < self.size ==> (#[trigger] chain(doms, w).contains(d) <==> self.dominates(d, w))
    }

    /// What the nodes with an edge to `u` have in common, taken over the
    /// first `j` entries that the reverse graph lists for `u`.
    pub open spec fn dominates_listed(&self, d: int, u: int, j: int) -> bool {
        forall|i: int|
            0 <= i < j ==> self.dominates(d, (#[trigger] self.reverse_graph@[u]@[i]).to as int)
    }

    /// What dominates every node that the reverse graph lists for `u`
    /// dominates every node with an edge to `u`, and the other way round.
    pub proof fn lemma_dominates_listed(&self, d: int, u: int)
        requires
            self.wf(),
            0 <= u < self.size,
        ensures
            self.dominates_listed(d, u, self.reverse_graph@[u]@.len() as int) <==> forall|v: int|
                0 <= v < self.size && #[trigger] self.has_edge(v, u) ==> self.dominates(d, v),
    {
        let back = self.reverse_graph@[u]@;
        if self.dominates_listed(d, u, back.len() as int) {
            assert forall|v: int| 0 <= v < self.size && #[trigger] self.has_edge(v, u) implies self.dominates(
                d,
                v,
            ) by {
                self.lemma_mirror(v, u);
                let j = choose|j: int| 0 <= j < back.len() && (#[trigger] back[j]).to == v;
                assert(self.dominates(d, back[j].to as int));
            }
        }
        if forall|v: int|
            0 <= v < self.size && #[trigger] self.has_edge(v, u) ==> self.dominates(d, v) {
            assert forall|i: int| 0 <= i < back.len() implies self.dominates(
                d,
                (#[trigger] back[i]).to as int,
            ) by {
                let v = back[i].to as int;
                self.lemma_mirror(v, u);
                assert(self.has_edge(v, u));
            }
        }
    }

    /// The dominators of every node. The immediate dominator of a node is
    /// what the ways up from the nodes with an edge to it share; the nodes are
    /// gone through from the root downwards until a pass changes nothing. A
    /// graph in which a node other than the root has no edge to it has no
    /// dominator tree.
    pub fn dom_rel(&self) -> (r: Result<Vec<HashSet<usize>>, Error>)
        requires
            self.wf(),
        ensures
            match r {
                Ok(res) => {
                    &&& self.rooted()
                    &&& res@.len() == self.size
                    &&& forall|n: int, d: usize|
                        0 <= n < self.size ==> (#[trigger] res@[n]@.contains(d) <==> self.dominates(
                            d as int,
                            n,
                        ))
                },
                Err(err) => err == Error::DominatorIntersection && !self.rooted(),
            },
    {
        let mut doms: Vec<Option<usize>> = Vec::new();
        let mut k: usize = 0;
        while k < self.size
            invariant
                k <= self.size,
                doms@.len() == k,
                forall|w: int| 0 <= w < k ==> doms@[w] is None,
            decreases self.size - k,
        {
            doms.push(None);
            k = k + 1;
        }
        doms.set(self.root, Some(self.root));
        proof {
            assert forall|w: int, d: int| self.root as int - 1 < w < self.size implies (
            #[trigger] chain(doms@, w).contains(d) <==> self.dominates(d, w)) by {
                self.lemma_dominators_of_root(d);
            }
        }
        let mut changed = true;
        let ghost mut passes: nat = 0;
        while changed
            invariant
                self.wf(),
                self.settled_above(doms@, self.root as int - 1),
                passes >= 1 ==> self.settled_above(doms@, -1) && self.rooted(),
                passes == 0 ==> changed,
                passes >= 2 ==> !changed,
            decreases 2 - passes,
        {
            changed = false;
            let ghost start = doms@;
            let mut u: usize = self.size - 1;
            while u > 0
                invariant
                    self.wf(),
                    u < self.size,
                    self.settled_above(doms@, u as int - 1),
                    passes >= 1 ==> doms@ == start && !changed,
                    passes >= 1 ==> self.settled_above(start, -1),
                    forall|w: int|
                        u <= w < self.size - 1 ==> (#[trigger] self.reverse_graph@[w])@.len() > 0,
                decreases u,
            {
                u = u - 1;
                let mut new_idom: Option<usize> = None;
                let mut j: usize = 0;
                while j < self.reverse_graph[u].len()
                    invariant
                        self.wf(),
                        u < self.size - 1,
                        self.settled_above(doms@, u as int),
                        j <= self.reverse_graph@[u as int]@.len(),
                        j == 0 ==> new_idom is None,
                        j > 0 ==> new_idom is Some && u < new_idom.unwrap() < self.size,
                        j > 0 ==> forall|d: int| #[trigger]
                            chain(doms@, new_idom.unwrap() as int).contains(d)
                                <==> self.dominates_listed(d, u as int, j as int),
                    decreases self.reverse_graph@[u as int]@.len() - j,
                {
                    let v = self.reverse_graph[u][j].to;
                    assert(u < v < self.size);
                    assert(doms@[v as int] is Some);
                    if let Some(_i) = doms[v] {
                        match new_idom {
                            None => {
                                new_idom = Some(v);
                                assert forall|d: int| #[trigger]
                                    chain(doms@, v as int).contains(d)
                                        <==> self.dominates_listed(d, u as int, j + 1) by {
                                    assert(self.dominates_listed(d, u as int, j + 1)
                                        <==> self.dominates(d, v as int)) by {
                                        if self.dominates_listed(d, u as int, j + 1) {
                                            assert(self.dominates(
                                                d,
                                                self.reverse_graph@[u as int]@[j as int].to as int,
                                            ));
                                        }
                                    }
                                }
                            },
                            Some(c) => {
                                proof {
                                    lemma_chain_reaches_root(doms@, u as int + 1, v as int);
                                    lemma_chain_reaches_root(doms@, u as int + 1, c as int);
                                }
                                let m = intersect(v, c, &doms);
                                assert forall|d: int| #[trigger]
                                    chain(doms@, m as int).contains(d)
                                        <==> self.dominates_listed(d, u as int, j + 1) by {
                                    assert(chain(doms@, c as int).contains(d)
                                        <==> self.dominates_listed(d, u as int, j as int));
                                    assert(chain(doms@, v as int).contains(d) <==> self.dominates(
                                        d,
                                        v as int,
                                    ));
                                    if self.dominates_listed(d, u as int, j + 1) {
                                        assert(self.dominates(
                                            d,
                                            self.reverse_graph@[u as int]@[j as int].to as int,
                                        ));
                                        assert(self.dominates_listed(d, u as int, j as int));
                                    }
                                }
                                new_idom = Some(m);
                            },
                        }
                    }
                    j = j + 1;
                }
                let c = match new_idom {
                    Some(c) => c,
                    None => {
                        return Err(Error::DominatorIntersection);
                    },
                };
                let ghost before = doms@;
                proof {
                    lemma_chain_bounds(before, c as int);
                    assert forall|d: int|
                        (d == u || chain(before, c as int).contains(d)) <==> self.dominates(
                            d,
                            u as int,
                        ) by {
                        self.lemma_dominates_listed(d, u as int);
                        self.lemma_dominators_of_node(d, u as int);
                    }
                    if passes >= 1 {
                        let p = before[u as int].unwrap();
                        lemma_chain_bounds(before, p as int);
                        assert(chain(before, u as int) == chain(before, p as int).insert(u as int));
                        assert(chain(before, u as int).contains(c as int) <==> self.dominates(
                            c as int,
                            u as int,
                        ));
                        assert(chain(before, u as int).contains(p as int) <==> self.dominates(
                            p as int,
                            u as int,
                        ));
                        assert(chain(before, p as int).contains(c as int));
                        assert(chain(before, c as int).contains(p as int));
                        assert(p == c);
                    }
                }
                let same = match doms[u] {
                    Some(p) => p == c,
                    None => false,
                };
                if !same {
                    doms.set(u, Some(c));
                    changed = true;
                }
                proof {
                    assert(doms@[u as int] == Some(c));
                    assert forall|w: int, d: int| u as int - 1 < w < self.size implies (
                    #[trigger] chain(doms@, w).contains(d) <==> self.dominates(d, w)) by {
                        if w == u {
                            lemma_chain_agree(before, doms@, c as int);
                        } else {
                            lemma_chain_agree(before, doms@, w);
                            assert(chain(before, w).contains(d) <==> self.dominates(d, w));
                        }
                    }
                }
            }
            proof {
                passes = passes + 1;
            }
        }
        let domtree = doms;
        let mut res: Vec<HashSet<usize>> = Vec::new();
        let mut i: usize = 0;
        while i < self.size
            invariant
                self.wf(),
                self.settled_above(domtree@, -1),
                i <= self.size,
                res@.len() == i,
                forall|n: int, d: usize|
                    0 <= n < i ==> (#[trigger] res@[n]@.contains(d) <==> self.dominates(
                        d as int,
                        n,
                    )),
            decreases self.size - i,
        {
            let mut set: HashSet<usize> = HashSet::new();
            set.insert(i);
            let mut cur = i;
            proof {
                lemma_chain_bounds(domtree@, cur as int);
            }
            while cur != domtree[cur].unwrap()
                invariant
                    self.wf(),
                    self.settled_above(domtree@, -1),
                    i <= cur < self.size,
                    set@.contains(cur),
                    forall|d: usize|
                        chain(domtree@, i as int).contains(d as int) <==> #[trigger] set@.contains(d)
                            || chain(domtree@, cur as int).contains(d as int),
                decreases self.size - cur,
            {
                let dom = domtree[cur].unwrap();
                proof {
                    lemma_chain_bounds(domtree@, dom as int);
                    assert(cur != self.root);
                    assert(chain(domtree@, cur as int) == chain(domtree@, dom as int).insert(
                        cur as int,
                    ));
                }
                set.insert(dom);
                cur = dom;
            }
            proof {
                assert(cur == self.root);
                assert forall|d: usize| #[trigger]
                    set@.contains(d) <==> self.dominates(d as int, i as int) by {
                    assert(chain(domtree@, i as int).contains(d as int) <==> self.dominates(
                        d as int,
                        i as int,
                    ));
                    lemma_chain_bounds(domtree@, cur as int);
                }
            }
            res.push(set);
            i = i + 1;
        }
        Ok(res)
    }
}

impl Deriv {
    /// A leaf is post-dominated by itself alone.
    pub proof fn lemma_post_dominators_of_leaf(&self, d: int, n: int)
        requires
            self.wf(),
            0 <= n < self.size,
            self.leafs@.contains_key(n as usize),
        ensures
            self.post_dominates(d, n) <==> d == n,
    {
        if self.post_dominates(d, n) {
            let p = seq![n];
            assert(self.is_path(p));
            assert(p.contains(d));
        }
        if d == n {
            assert forall|p: Seq<int>|
                #[trigger] self.is_path(p) && p[0] == n && self.leafs@.contains_key(
                    p.last() as usize,
                ) implies p.contains(d) by {
                assert(p[0] == d);
            }
        }
    }

    /// A node that is no leaf is post-dominated by itself and by what
    /// post-dominates every node that it has an edge to.
    pub proof fn lemma_post_dominators_of_node(&self, d: int, n: int)
        requires
            self.wf(),
            0 <= n < self.size,
            !self.leafs@.contains_key(n as usize),
        ensures
            self.post_dominates(d, n) <==> d == n || forall|v: int|
                0 <= v < self.size && #[trigger] self.has_edge(n, v) ==> self.post_dominates(d, v),
    {
        if self.post_dominates(d, n) && d != n {
            assert forall|v: int| 0 <= v < self.size && #[trigger] self.has_edge(n, v) implies self.post_dominates(
                d,
                v,
            ) by {
                assert forall|q: Seq<int>|
                    #[trigger] self.is_path(q) && q[0] == v && self.leafs@.contains_key(
                        q.last() as usize,
                    ) implies q.contains(d) by {
                    let p = seq![n] + q;
                    assert forall|k: int| 0 <= k < p.len() - 1 implies self.has_edge(
                        #[trigger] p[k],
                        p[k + 1],
                    ) by {
                        if k >= 1 {
                            assert(self.has_edge(q[k - 1], q[k - 1 + 1]));
                        }
                    }
                    assert(self.is_path(p));
                    assert(p.last() == q.last());
                    assert(p.contains(d));
                    let k = choose|k: int| 0 <= k < p.len() && p[k] == d;
                    assert(q[k - 1] == d);
                }
            }
        }
        if d == n {
            assert forall|p: Seq<int>|
                #[trigger] self.is_path(p) && p[0] == n && self.leafs@.contains_key(
                    p.last() as usize,
                ) implies p.contains(d) by {
                assert(p[0] == d);
            }
        }
        if forall|v: int|
            0 <= v < self.size && #[trigger] self.has_edge(n, v) ==> self.post_dominates(d, v) {
            assert forall|p: Seq<int>|
                #[trigger] self.is_path(p) && p[0] == n && self.leafs@.contains_key(
                    p.last() as usize,
                ) implies p.contains(d) by {
                assert(p.len() >= 2) by {
                    if p.len() == 1 {
                        assert(p.last() == n);
                    }
                }
                let q = p.drop_first();
                let v = p[1];
                assert(self.has_edge(p[0], p[0int + 1]));
                assert forall|k: int| 0 <= k < q.len() - 1 implies self.has_edge(
                    #[trigger] q[k],
                    q[k + 1],
                ) by {
                    assert(self.has_edge(p[k + 1], p[k + 1 + 1]));
                }
                assert(self.is_path(q));
                assert(q.last() == p.last());
                assert(self.post_dominates(d, v));
                assert(q.contains(d));
                let k = choose|k: int| 0 <= k < q.len() && q[k] == d;
                assert(p[k + 1] == d);
            }
        }
    }

    /// What the nodes that `u` has an edge to have in common, taken over the
    /// first `j` edges of `u`.
    pub open spec fn post_dominates_listed(&self, d: int, u: int, j: int) -> bool {
        forall|i: int|
            0 <= i < j ==> self.post_dominates(d, (#[trigger] self.graph@[u]@[i]).to as int)
    }

    /// Whether the set of node `w` holds exactly the post-dominators of `w`
    /// among the nodes.
    pub open spec fn post_settled(&self, pdoms: Seq<HashSet<usize>>, w: int) -> bool {
        forall|d: usize| #[trigger]
            pdoms[w]@.contains(d) <==> d < self.size && self.post_dominates(d as int, w)
    }

    /// The post-dominators of every node, among the nodes. The set of a leaf
    /// is the leaf itself; the set of another node is the node and what the
    /// sets of the nodes it has an edge to share; the nodes are gone through
    /// from the leaves upwards until a pass changes nothing.
    pub fn pdom_rel(&self) -> (res: Vec<HashSet<usize>>)
        requires
            self.wf(),
        ensures
            res@.len() == self.size,
            forall|n: int, d: usize|
                0 <= n < self.size ==> (#[trigger] res@[n]@.contains(d) <==> d < self.size
                    && self.post_dominates(d as int, n)),
    {
        let mut pdoms: Vec<HashSet<usize>> = Vec::new();
        let mut n: usize = 0;
        while n < self.size
            invariant
                n <= self.size,
                pdoms@.len() == n,
                forall|w: int| 0 <= w < n ==> (#[trigger] pdoms@[w])@ == set![w as usize],
            decreases self.size - n,
        {
            let mut single: HashSet<usize> = HashSet::new();
            single.insert(n);
            assert(single@ =~= set![n]);
            pdoms.push(single);
            n = n + 1;
        }
        let mut changed = true;
        let ghost mut passes: nat = 0;
        while changed
            invariant
                self.wf(),
                pdoms@.len() == self.size,
                passes == 0 ==> changed && forall|w: int|
                    0 <= w < self.size ==> (#[trigger] pdoms@[w])@ == set![w as usize],
                passes >= 1 ==> forall|w: int|
                    0 <= w < self.size ==> #[trigger] self.post_settled(pdoms@, w),
                passes >= 2 ==> !changed,
            decreases 2 - passes,
        {
            changed = false;
            let mut u: usize = 0;
            while u < self.size
                invariant
                    self.wf(),
                    pdoms@.len() == self.size,
                    u <= self.size,
                    forall|w: int| 0 <= w < u ==> #[trigger] self.post_settled(pdoms@, w),
                    passes == 0 ==> forall|w: int|
                        u <= w < self.size ==> (#[trigger] pdoms@[w])@ == set![w as usize],
                    passes >= 1 ==> !changed && forall|w: int|
                        0 <= w < self.size ==> #[trigger] self.post_settled(pdoms@, w),
                decreases self.size - u,
            {
                if self.leafs.contains_key(&u) {
                    proof {
                        if passes == 0 {
                            assert forall|d: usize| #[trigger]
                                pdoms@[u as int]@.contains(d) <==> d < self.size
                                    && self.post_dominates(d as int, u as int) by {
                                self.lemma_post_dominators_of_leaf(d as int, u as int);
                            }
                        }
                    }
                    u = u + 1;
                    continue ;
                }
                let mut new_set: HashSet<usize> = HashSet::new();
                let mut k: usize = 0;
                while k < self.size
                    invariant
                        k <= self.size,
                        forall|d: usize| #[trigger] new_set@.contains(d) <==> d < k,
                    decreases self.size - k,
                {
                    new_set.insert(k);
                    k = k + 1;
                }
                let mut j: usize = 0;
                while j < self.graph[u].len()
                    invariant
                        self.wf(),
                        pdoms@.len() == self.size,
                        u < self.size,
                        j <= self.graph@[u as int]@.len(),
                        forall|w: int| 0 <= w < u ==> #[trigger] self.post_settled(pdoms@, w),
                        forall|d: usize| #[trigger]
                            new_set@.contains(d) <==> d < self.size && self.post_dominates_listed(
                                d as int,
                                u as int,
                                j as int,
                            ),
                    decreases self.graph@[u as int]@.len() - j,
                {
                    let v = self.graph[u][j].to;
                    assert(v < u);
                    assert(self.post_settled(pdoms@, v as int));
                    let both = set_intersection(&new_set, &pdoms[v], self.size);
                    proof {
                        assert forall|d: usize| #[trigger]
                            both@.contains(d) <==> d < self.size && self.post_dominates_listed(
                                d as int,
                                u as int,
                                j + 1,
                            ) by {
                            assert(pdoms@[v as int]@.contains(d) <==> d < self.size
                                && self.post_dominates(d as int, v as int));
                            if self.post_dominates_listed(d as int, u as int, j + 1) {
                                assert(self.post_dominates(
                                    d as int,
                                    self.graph@[u as int]@[j as int].to as int,
                                ));
                                assert(self.post_dominates_listed(d as int, u as int, j as int));
                            }
                        }
                    }
                    new_set = both;
                    j = j + 1;
                }
                new_set.insert(u);
                proof {
                    assert forall|d: usize| #[trigger]
                        new_set@.contains(d) <==> d < self.size && self.post_dominates(
                            d as int,
                            u as int,
                        ) by {
                        self.lemma_post_dominators_of_node(d as int, u as int);
                        let row = self.graph@[u as int]@;
                        if self.post_dominates_listed(d as int, u as int, row.len() as int) {
                            assert forall|v: int|
                                0 <= v < self.size && #[trigger] self.has_edge(
                                    u as int,
                                    v,
                                ) implies self.post_dominates(d as int, v) by {
                                let i = choose|i: int|
                                    0 <= i < row.len() && (#[trigger] row[i]).to == v;
                                assert(self.post_dominates(d as int, row[i].to as int));
                            }
                        }
                        if forall|v: int|
                            0 <= v < self.size && #[trigger] self.has_edge(u as int, v)
                                ==> self.post_dominates(d as int, v) {
                            assert forall|i: int| 0 <= i < row.len() implies self.post_dominates(
                                d as int,
                                (#[trigger] row[i]).to as int,
                            ) by {
                                assert(self.has_edge(u as int, row[i].to as int));
                            }
                        }
                    }
                }
                proof {
                    if passes >= 1 {
                        assert(self.post_settled(pdoms@, u as int));
                    }
                }
                if !set_equal(&pdoms[u], &new_set, self.size) {
                    let ghost before = pdoms@;
                    pdoms.set(u, new_set);
                    changed = true;
                    proof {
                        assert forall|w: int| 0 <= w < u + 1 implies #[trigger] self.post_settled(
                            pdoms@,
                            w,
                        ) by {
                            if w < u {
                                assert(self.post_settled(before, w));
                            }
                        }
                    }
                } else {
                    assert forall|d: usize| #[trigger]
                        pdoms@[u as int]@.contains(d) <==> d < self.size && self.post_dominates(
                            d as int,
                            u as int,
                        ) by {
                        if d < self.size {
                            assert(pdoms@[u as int]@.contains(d) <==> new_set@.contains(d));
                        } else if passes >= 1 {
                            assert(self.post_settled(pdoms@, u as int));
                        }
                    }
                }
                u = u + 1;
            }
            proof {
                passes = passes + 1;
            }
        }
        proof {
            assert forall|n: int, d: usize| 0 <= n < self.size implies (
            #[trigger] pdoms@[n]@.contains(d) <==> d < self.size && self.post_dominates(
                d as int,
                n,
            )) by {
                assert(self.post_settled(pdoms@, n));
            }
        }
        pdoms
    }

    /// In a graph with an edge to every node but the root, what dominates a
    /// node is a node with the same or a greater number.
    pub proof fn lemma_dominator_above(&self, d: int, n: int)
        requires
            self.wf(),
            self.rooted(),
            0 <= n < self.size,
            self.dominates(d, n),
        ensures
            n <= d < self.size,
    {
        let p = self.lemma_reachable(n);
        assert(p.contains(d));
        let k = choose|k: int| 0 <= k < p.len() && p[k] == d;
        if k < p.len() - 1 {
            self.lemma_path_falls(p, k, p.len() - 1);
        }
    }

    /// In a graph whose leaves are the nodes that no edge leaves, a path
    /// leads from every node to a leaf.
    pub proof fn lemma_leaf_below(&self, n: int) -> (p: Seq<int>)
        requires
            self.wf(),
            self.leaves_are_ends(),
            0 <= n < self.size,
        ensures
            self.is_path(p),
            p[0] == n,
            self.leafs@.contains_key(p.last() as usize),
        decreases n,
    {
        if self.leafs@.contains_key(n as usize) {
            seq![n]
        } else {
            let row = self.graph@[n]@;
            assert(row.len() > 0);
            let w = row[0].to as int;
            assert(0 <= w < n);
            assert(self.has_edge(n, w));
            let q = self.lemma_leaf_below(w);
            let p = seq![n] + q;
            assert forall|k: int| 0 <= k < p.len() - 1 implies self.has_edge(
                #[trigger] p[k],
                p[k + 1],
            ) by {
                if k >= 1 {
                    assert(self.has_edge(q[k - 1], q[k - 1 + 1]));
                }
            }
            assert(p.last() == q.last());
            p
        }
    }

    /// In a graph whose leaves are the nodes that no edge leaves, what
    /// post-dominates a node is a node with the same or a smaller number.
    pub proof fn lemma_post_dominator_below(&self, d: int, n: int)
        requires
            self.wf(),
            self.leaves_are_ends(),
            0 <= n < self.size,
            self.post_dominates(d, n),
        ensures
            0 <= d <= n,
    {
        let p = self.lemma_leaf_below(n);
        assert(p.contains(d));
        let k = choose|k: int| 0 <= k < p.len() && p[k] == d;
        if k > 0 {
            self.lemma_path_falls(p, 0, k);
        }
    }
}

/// The members below `n` that two sets share.
pub fn set_intersection(a: &HashSet<usize>, b: &HashSet<usize>, n: usize) -> (r: HashSet<usize>)
    ensures
        forall|d: usize| #[trigger] r@.contains(d) <==> d < n && a@.contains(d) && b@.contains(d),
{
    let mut r: HashSet<usize> = HashSet::new();
    let mut k: usize = 0;
    while k < n
        invariant
            k <= n,
            forall|d: usize|
                #[trigger] r@.contains(d) <==> d < k && a@.contains(d) && b@.contains(d),
        decreases n - k,
    {
        if a.contains(&k) && b.contains(&k) {
            r.insert(k);
        }
        k = k + 1;
    }
    r
}

/// Whether two sets have the same members below `n`.
pub fn set_equal(a: &HashSet<usize>, b: &HashSet<usize>, n: usize) -> (r: bool)
    ensures
        r <==> forall|d: usize| d < n ==> (#[trigger] a@.contains(d) <==> b@.contains(d)),
{
    let mut k: usize = 0;
    while k < n
        invariant
            k <= n,
            forall|d: usize| d < k ==> (#[trigger] a@.contains(d) <==> b@.contains(d)),
        decreases n - k,
    {
        if a.contains(&k) != b.contains(&k) {
            return false;
        }
        k = k + 1;
    }
    true
}

impl Deriv {
    /// Every node dominates itself.
    pub proof fn lemma_dominates_self(&self, n: int)
        ensures
            self.dominates(n, n),
    {
        assert forall|p: Seq<int>|
            #[trigger] self.is_path(p) && p[0] == self.root && p.last() == n implies p.contains(
            n,
        ) by {
            assert(p[p.len() - 1] == n);
        }
    }

    /// Every node post-dominates itself.
    pub proof fn lemma_post_dominates_self(&self, n: int)
        ensures
            self.post_dominates(n, n),
    {
        assert forall|p: Seq<int>|
            #[trigger] self.is_path(p) && p[0] == n && self.leafs@.contains_key(
                p.last() as usize,
            ) implies p.contains(n) by {
            assert(p[0] == n);
        }
    }

    /// The root dominates every node.
    pub proof fn lemma_root_dominates(&self, n: int)
        ensures
            self.dominates(self.root as int, n),
    {
        assert forall|p: Seq<int>|
            #[trigger] self.is_path(p) && p[0] == self.root && p.last() == n implies p.contains(
            self.root as int,
        ) by {
            assert(p[0] == self.root);
        }
    }

    /// Along a path the numbers of the nodes fall.
    pub proof fn lemma_path_falls(&self, p: Seq<int>, i: int, j: int)
        requires
            self.wf(),
            self.is_path(p),
            0 <= i < j < p.len(),
        ensures
            p[i] > p[j],
        decreases j - i,
    {
        assert(self.has_edge(p[j - 1], p[j - 1 + 1]));
        if i < j - 1 {
            self.lemma_path_falls(p, i, j - 1);
        }
    }

    /// In a graph with an edge to every node but the root, a path leads from
    /// the root to every node.
    pub proof fn lemma_reachable(&self, n: int) -> (p: Seq<int>)
        requires
            self.wf(),
            self.rooted(),
            0 <= n < self.size,
        ensures
            self.is_path(p),
            p[0] == self.root,
            p.last() == n,
        decreases self.size - n,
    {
        if n == self.root {
            seq![n]
        } else {
            let back = self.reverse_graph@[n]@;
            let v = back[0].to as int;
            self.lemma_mirror(v, n);
            let q = self.lemma_reachable(v);
            let p = q.push(n);
            assert forall|k: int| 0 <= k < p.len() - 1 implies self.has_edge(
                #[trigger] p[k],
                p[k + 1],
            ) by {
                if k < q.len() - 1 {
                    assert(self.has_edge(q[k], q[k + 1]));
                }
            }
            p
        }
    }

    /// A path to a node of another path, followed by the rest of that other
    /// path, is a path; each of its nodes is on the first path, or on the
    /// other one behind the node where they meet.
    pub proof fn lemma_splice(&self, q: Seq<int>, p: Seq<int>, at: int) -> (r: Seq<int>)
        requires
            self.is_path(q),
            self.is_path(p),
            0 <= at < p.len(),
            q.last() == p[at],
        ensures
            self.is_path(r),
            r[0] == q[0],
            r.last() == p.last(),
            forall|x: int|
                r.contains(x) ==> q.contains(x) || exists|m: int| at < m < p.len() && p[m] == x,
    {
        let tail = p.subrange(at + 1, p.len() as int);
        let r = q + tail;
        assert forall|k: int| 0 <= k < r.len() - 1 implies self.has_edge(
            #[trigger] r[k],
            r[k + 1],
        ) by {
            if k < q.len() - 1 {
                assert(self.has_edge(q[k], q[k + 1]));
            } else if k == q.len() - 1 {
                assert(self.has_edge(p[at], p[at + 1]));
            } else {
                let m = at + 1 + (k - q.len());
                assert(self.has_edge(p[m], p[m + 1]));
            }
        }
        assert forall|x: int| r.contains(x) implies q.contains(x) || exists|m: int|
            at < m < p.len() && p[m] == x by {
            let k = choose|k: int| 0 <= k < r.len() && r[k] == x;
            if k < q.len() {
                assert(q[k] == x);
            } else {
                let m = at + 1 + (k - q.len());
                assert(p[m] == x);
            }
        }
        r
    }

    /// Of two dominators of a node, the one with the greater number
    /// dominates the other: the dominators of a node lie in one line from the
    /// root down to the node.
    pub proof fn lemma_dominators_in_line(&self, a: int, b: int, n: int)
        requires
            self.wf(),
            self.rooted(),
            0 <= n < self.size,
            self.dominates(a, n),
            self.dominates(b, n),
            a >= b,
        ensures
            self.dominates(a, b),
    {
        if a == b {
            self.lemma_dominates_self(a);
        } else {
            let p = self.lemma_reachable(n);
            assert(p.contains(b));
            let ib = choose|k: int| 0 <= k < p.len() && p[k] == b;
            assert forall|q: Seq<int>|
                #[trigger] self.is_path(q) && q[0] == self.root && q.last() == b implies q.contains(
                a,
            ) by {
                let r = self.lemma_splice(q, p, ib);
                assert(r.contains(a));
                if !q.contains(a) {
                    let m = choose|m: int| ib < m < p.len() && p[m] == a;
                    self.lemma_path_falls(p, ib, m);
                }
            }
        }
    }
}

} // verus!
