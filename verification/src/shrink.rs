//! Folding the paths between two nodes into one edge.
use crate::dominance::set_views;
use crate::env::Environment;
use crate::error::Error;
use crate::expr::{binop, num, share, Bop, Expr};
use crate::graph::{Deriv, Edge};
use crate::simplify::reduced;
use crate::value::same_value;
use std::collections::HashSet;
use std::rc::Rc;
use vstd::prelude::*;

verus! {

/// An edge of the graph, as the node it leaves and its place among the edges
/// of that node.
pub type Step = (usize, usize);

/// Each path with `prefix` put before it.
pub open spec fn prefixed(prefix: Seq<Step>, paths: Seq<Seq<Step>>) -> Seq<Seq<Step>> {
    Seq::new(paths.len(), |k: int| prefix + paths[k])
}

/// The paths that the vectors hold.
pub open spec fn rows(v: Seq<Vec<Step>>) -> Seq<Seq<Step>> {
    Seq::new(v.len(), |k: int| v[k]@)
}

/// Whether the edge is on one of the paths.
pub open spec fn on_paths(paths: Seq<Seq<Step>>, step: Step) -> bool {
    exists|k: int, j: int|
        0 <= k < paths.len() && 0 <= j < paths[k].len() && #[trigger] paths[k][j] == step
}

/// The edges of a row that stay when those that `gone` names by their place
/// are taken out. `off` is the place of the row's first edge.
pub open spec fn kept(row: Seq<Edge>, off: int, gone: spec_fn(int) -> bool) -> Seq<Edge>
    decreases row.len(),
{
    if row.len() == 0 {
        row
    } else if gone(off) {
        kept(row.drop_first(), off + 1, gone)
    } else {
        seq![row[0]] + kept(row.drop_first(), off + 1, gone)
    }
}

/// How many edges of a row `gone` names.
pub open spec fn gone_count(len: int, gone: spec_fn(int) -> bool) -> nat
    decreases len,
{
    if len <= 0 {
        0
    } else if gone(len - 1) {
        gone_count(len - 1, gone) + 1
    } else {
        gone_count(len - 1, gone)
    }
}

impl Deriv {
    /// The paths from `cur` down to `goal` that begin with one of the first
    /// `k` edges of `cur`, in the order of those edges.
    pub open spec fn paths_via(&self, cur: int, goal: int, k: int) -> Seq<Seq<Step>>
        decreases cur, 0int, k,
    {
        if k <= 0 || cur < 0 {
            Seq::empty()
        } else {
            let to = self.graph@[cur]@[k - 1].to as int;
            self.paths_via(cur, goal, k - 1) + if 0 <= to < cur {
                prefixed(seq![(cur as usize, (k - 1) as usize)], self.paths_from(to, goal))
            } else {
                Seq::empty()
            }
        }
    }

    /// The paths from `cur` down to `goal`, each as the edges it takes: the
    /// empty path if `cur` is `goal`, none if `cur` is another leaf, else the
    /// paths through each edge of `cur` in turn.
    pub open spec fn paths_from(&self, cur: int, goal: int) -> Seq<Seq<Step>>
        decreases cur, 1int, 0int,
    {
        if cur == goal {
            seq![Seq::empty()]
        } else if cur < 0 || self.leafs@.contains_key(cur as usize) {
            Seq::empty()
        } else {
            self.paths_via(cur, goal, self.graph@[cur]@.len() as int)
        }
    }

    /// Whether every edge of every path is an edge of the graph.
    pub open spec fn steps_valid(&self, paths: Seq<Seq<Step>>) -> bool {
        forall|k: int, j: int|
            0 <= k < paths.len() && 0 <= j < paths[k].len() ==> (#[trigger] paths[k][j]).0
                < self.size && paths[k][j].1 < self.graph@[paths[k][j].0 as int]@.len()
    }

    /// The paths between two nodes that begin with one of the first `k`
    /// edges run over edges of the graph.
    pub proof fn lemma_paths_via_valid(&self, cur: int, goal: int, k: int)
        requires
            self.wf(),
            0 <= cur < self.size,
            0 <= k <= self.graph@[cur]@.len(),
        ensures
            self.steps_valid(self.paths_via(cur, goal, k)),
        decreases cur, 0int, k,
    {
        if k > 0 {
            self.lemma_paths_via_valid(cur, goal, k - 1);
            let to = self.graph@[cur]@[k - 1].to as int;
            self.lemma_paths_from_valid(to, goal);
            let first = self.paths_via(cur, goal, k - 1);
            let rest = self.paths_from(to, goal);
            let second = prefixed(seq![(cur as usize, (k - 1) as usize)], rest);
            let all = self.paths_via(cur, goal, k);
            assert(all == first + second);
            assert forall|a: int, j: int| 0 <= a < all.len() && 0 <= j < all[a].len() implies (
            #[trigger] all[a][j]).0 < self.size && all[a][j].1 < self.graph@[all[a][j].0 as int]@.len() by {
                if a < first.len() {
                    assert(all[a][j] == first[a][j]);
                } else {
                    let b = a - first.len();
                    assert(all[a] == second[b]);
                    if j > 0 {
                        assert(all[a][j] == rest[b][j - 1]);
                    }
                }
            }
        }
    }

    /// The paths between two nodes run over edges of the graph.
    pub proof fn lemma_paths_from_valid(&self, cur: int, goal: int)
        requires
            self.wf(),
            0 <= cur < self.size,
        ensures
            self.steps_valid(self.paths_from(cur, goal)),
        decreases cur, 1int, 0int,
    {
        if cur != goal && !self.leafs@.contains_key(cur as usize) {
            self.lemma_paths_via_valid(cur, goal, self.graph@[cur]@.len() as int);
        }
    }

    /// The product of the expressions on the edges of a path, from the first
    /// edge to the last, begun with the constant one.
    pub open spec fn path_product(&self, path: Seq<Step>) -> Expr
        decreases path.len(),
    {
        if path.len() == 0 {
            num(1)
        } else {
            binop(
                Bop::Mul,
                self.path_product(path.drop_last()),
                *self.graph@[path.last().0 as int]@[path.last().1 as int].exp,
            )
        }
    }

    /// The sum of the products of the paths, from the first path to the
    /// last, begun with the constant zero.
    pub open spec fn paths_sum(&self, paths: Seq<Seq<Step>>) -> Expr
        decreases paths.len(),
    {
        if paths.len() == 0 {
            num(0)
        } else {
            binop(Bop::Add, self.paths_sum(paths.drop_last()), self.path_product(paths.last()))
        }
    }

    /// Whether an edge lies inside the part of the graph that a pair spans.
    /// The second node of the pair decides. For a pair whose first node is
    /// the greater one, a dominator, the second node must post-dominate the
    /// node the edge leads to. For a pair whose first node is the smaller
    /// one, a post-dominator, the second node must dominate the node the
    /// edge leaves.
    pub open spec fn interior(
        &self,
        fsub: (usize, usize),
        doms: Seq<Set<usize>>,
        pdoms: Seq<Set<usize>>,
        step: Step,
    ) -> bool {
        if fsub.1 < fsub.0 {
            pdoms[self.graph@[step.0 as int]@[step.1 as int].to as int].contains(fsub.1)
        } else {
            doms[step.0 as int].contains(fsub.1)
        }
    }

    /// Whether `shrink` takes the edge out: it is on a path from the greater
    /// node of the pair to the smaller one and lies inside.
    pub open spec fn removed(
        &self,
        fsub: (usize, usize),
        doms: Seq<Set<usize>>,
        pdoms: Seq<Set<usize>>,
        step: Step,
    ) -> bool {
        let start = if fsub.0 > fsub.1 { fsub.0 } else { fsub.1 };
        let goal = if fsub.0 > fsub.1 { fsub.1 } else { fsub.0 };
        on_paths(self.paths_from(start as int, goal as int), step) && self.interior(
            fsub,
            doms,
            pdoms,
            step,
        )
    }
}

/// The marks of row `u`, as a predicate on places.
pub open spec fn gone_in(marked: Seq<Vec<bool>>, u: int) -> spec_fn(int) -> bool {
    |i: int| 0 <= i < marked[u]@.len() && marked[u]@[i]
}

/// What stays of a row depends on `gone` at the places of the row only.
pub proof fn lemma_kept_agree(
    row: Seq<Edge>,
    off: int,
    g1: spec_fn(int) -> bool,
    g2: spec_fn(int) -> bool,
)
    requires
        forall|i: int| off <= i < off + row.len() ==> #[trigger] g1(i) == g2(i),
    ensures
        kept(row, off, g1) == kept(row, off, g2),
    decreases row.len(),
{
    if row.len() > 0 {
        lemma_kept_agree(row.drop_first(), off + 1, g1, g2);
    }
}

/// What stays of a row and what is taken out of it make up the row.
pub proof fn lemma_kept_len(row: Seq<Edge>, off: int, gone: spec_fn(int) -> bool)
    requires
        off >= 0,
    ensures
        kept(row, off, gone).len() + gone_count(off + row.len(), gone) == row.len() + gone_count(
            off,
            gone,
        ),
    decreases row.len(),
{
    if row.len() > 0 {
        lemma_kept_len(row.drop_first(), off + 1, gone);
        lemma_gone_count_step(off + 1, gone);
    } else {
    }
}

/// One more place adds one to the count if `gone` names it.
pub proof fn lemma_gone_count_step(len: int, gone: spec_fn(int) -> bool)
    requires
        len >= 1,
    ensures
        gone_count(len, gone) == gone_count(len - 1, gone) + if gone(len - 1) {
            1nat
        } else {
            0nat
        },
{
}

/// The number of edges in the first `n` rows.
pub open spec fn edges_upto(g: Seq<Vec<Edge>>, n: int) -> nat
    decreases n,
{
    if n <= 0 {
        0
    } else {
        edges_upto(g, n - 1) + g[n - 1]@.len()
    }
}

fn copy_steps(v: &Vec<Step>) -> (r: Vec<Step>)
    ensures
        r@ == v@,
{
    let mut r: Vec<Step> = Vec::new();
    let mut i: usize = 0;
    while i < v.len()
        invariant
            i <= v@.len(),
            r@ == v@.take(i as int),
        decreases v@.len() - i,
    {
        r.push(v[i]);
        assert(r@ =~= v@.take(i + 1));
        i = i + 1;
    }
    assert(v@.take(v@.len() as int) =~= v@);
    r
}

impl Deriv {
    /// The number of edges of the graph.
    pub open spec fn edge_count(&self) -> nat {
        edges_upto(self.graph@, self.graph@.len() as int)
    }

    /// How many edges of the first `n` nodes `shrink` takes out.
    pub open spec fn removed_upto(
        &self,
        fsub: (usize, usize),
        doms: Seq<Set<usize>>,
        pdoms: Seq<Set<usize>>,
        n: int,
    ) -> nat
        decreases n,
    {
        if n <= 0 {
            0
        } else {
            self.removed_upto(fsub, doms, pdoms, n - 1) + gone_count(
                self.graph@[n - 1]@.len() as int,
                self.gone_at(fsub, doms, pdoms, (n - 1) as usize),
            )
        }
    }

    /// Adds to `out` the paths from `cur` down to `goal`, each behind the
    /// edges in `prefix`. Every path is written out: where paths part and
    /// meet again many times in a row, their number doubles each time.
    pub fn collect_paths(
        &self,
        cur: usize,
        goal: usize,
        prefix: &mut Vec<Step>,
        out: &mut Vec<Vec<Step>>,
    )
        requires
            self.wf(),
            cur < self.size,
        ensures
            final(prefix)@ == old(prefix)@,
            rows(final(out)@) == rows(old(out)@) + prefixed(
                old(prefix)@,
                self.paths_from(cur as int, goal as int),
            ),
        decreases cur,
    {
        if cur == goal {
            out.push(copy_steps(prefix));
            assert(rows(out@) =~= rows(old(out)@) + prefixed(
                old(prefix)@,
                self.paths_from(cur as int, goal as int),
            ));
            return ;
        }
        if self.leafs.contains_key(&cur) {
            assert(rows(out@) =~= rows(old(out)@) + prefixed(
                old(prefix)@,
                self.paths_from(cur as int, goal as int),
            ));
            return ;
        }
        let mut k: usize = 0;
        assert(rows(out@) =~= rows(old(out)@) + prefixed(
            old(prefix)@,
            self.paths_via(cur as int, goal as int, 0),
        ));
        while k < self.graph[cur].len()
            invariant
                self.wf(),
                cur < self.size,
                cur != goal,
                k <= self.graph@[cur as int]@.len(),
                prefix@ == old(prefix)@,
                rows(out@) == rows(old(out)@) + prefixed(
                    old(prefix)@,
                    self.paths_via(cur as int, goal as int, k as int),
                ),
            decreases self.graph@[cur as int]@.len() - k,
        {
            let next = self.graph[cur][k].to;
            let ghost before = rows(out@);
            prefix.push((cur, k));
            self.collect_paths(next, goal, prefix, out);
            prefix.pop();
            proof {
                let step = seq![(cur, k)];
                let deeper = self.paths_from(next as int, goal as int);
                let sofar = self.paths_via(cur as int, goal as int, k as int);
                let upto = self.paths_via(cur as int, goal as int, k + 1);
                assert(upto == sofar + prefixed(step, deeper));
                assert(prefix@ =~= old(prefix)@);
                assert forall|a: int| 0 <= a < deeper.len() implies old(prefix)@.push((cur, k))
                    + deeper[a] == old(prefix)@ + prefixed(step, deeper)[a] by {
                    assert(old(prefix)@.push((cur, k)) + deeper[a] =~= old(prefix)@ + (step
                        + deeper[a]));
                }
                assert(rows(out@) =~= rows(old(out)@) + prefixed(old(prefix)@, upto));
            }
            k = k + 1;
        }
    }

    /// The sum, over the paths, of the product of the expressions on the
    /// edges of a path. Every expression made on the way is put into the
    /// cache.
    pub fn sum_of_paths(&self, paths: &Vec<Vec<Step>>, env: &mut Environment) -> (res: Rc<Expr>)
        requires
            self.wf(),
            self.steps_valid(rows(paths@)),
        ensures
            *res == self.paths_sum(rows(paths@)),
            final(env).names() == old(env).names(),
            old(env).cache().subset_of(final(env).cache()),
    {
        let mut res = Expr::new_num(0, env);
        let mut a: usize = 0;
        assert(rows(paths@).take(0) =~= Seq::<Seq<Step>>::empty());
        while a < paths.len()
            invariant
                self.wf(),
                self.steps_valid(rows(paths@)),
                a <= paths@.len(),
                *res == self.paths_sum(rows(paths@).take(a as int)),
                env.names() == old(env).names(),
                old(env).cache().subset_of(env.cache()),
            decreases paths@.len() - a,
        {
            let path = &paths[a];
            let ghost steps = rows(paths@)[a as int];
            assert(steps == path@);
            let mut temp_expr = Expr::new_num(1, env);
            let mut j: usize = 0;
            assert(steps.take(0) =~= Seq::<Step>::empty());
            while j < path.len()
                invariant
                    self.wf(),
                    self.steps_valid(rows(paths@)),
                    a < paths@.len(),
                    steps == rows(paths@)[a as int],
                    steps == path@,
                    j <= path@.len(),
                    *temp_expr == self.path_product(steps.take(j as int)),
                    env.names() == old(env).names(),
                    old(env).cache().subset_of(env.cache()),
                decreases path@.len() - j,
            {
                let (u, i) = path[j];
                assert(rows(paths@)[a as int][j as int] == (u, i));
                let exp = share(&self.graph[u][i].exp);
                temp_expr = Expr::new_binop(Bop::Mul, temp_expr, exp, env);
                proof {
                    let upto = steps.take(j + 1);
                    assert(upto.drop_last() =~= steps.take(j as int));
                    assert(upto.last() == (u, i));
                }
                j = j + 1;
            }
            res = Expr::new_binop(Bop::Add, res, temp_expr, env);
            proof {
                assert(steps.take(path@.len() as int) =~= steps);
                let upto = rows(paths@).take(a + 1);
                assert(upto.drop_last() =~= rows(paths@).take(a as int));
                assert(upto.last() == steps);
            }
            a = a + 1;
        }
        assert(rows(paths@).take(paths@.len() as int) =~= rows(paths@));
        res
    }

    /// Whether an edge lies inside the part of the graph that a pair spans.
    pub fn is_interior(
        &self,
        fsub: (usize, usize),
        doms: &Vec<HashSet<usize>>,
        pdoms: &Vec<HashSet<usize>>,
        step: Step,
    ) -> (b: bool)
        requires
            self.wf(),
            doms@.len() == self.size,
            pdoms@.len() == self.size,
            step.0 < self.size,
            step.1 < self.graph@[step.0 as int]@.len(),
        ensures
            b == self.interior(fsub, set_views(doms@), set_views(pdoms@), step),
    {
        let cur = step.0;
        let v = self.graph[cur][step.1].to;
        if fsub.1 < fsub.0 {
            pdoms[v].contains(&fsub.1)
        } else {
            doms[cur].contains(&fsub.1)
        }
    }

    /// For each edge of the graph, whether it is on one of the paths and
    /// lies inside the part that the pair spans.
    pub fn mark_paths(
        &self,
        fsub: (usize, usize),
        doms: &Vec<HashSet<usize>>,
        pdoms: &Vec<HashSet<usize>>,
        paths: &Vec<Vec<Step>>,
    ) -> (marked: Vec<Vec<bool>>)
        requires
            self.wf(),
            doms@.len() == self.size,
            pdoms@.len() == self.size,
            self.steps_valid(rows(paths@)),
        ensures
            marked@.len() == self.size,
            forall|u: int|
                0 <= u < self.size ==> (#[trigger] marked@[u])@.len() == self.graph@[u]@.len(),
            forall|u: usize, i: usize|
                u < self.size && i < self.graph@[u as int]@.len() ==> (
                #[trigger] marked@[u as int]@[i as int] <==> on_paths(rows(paths@), (u, i))
                    && self.interior(fsub, set_views(doms@), set_views(pdoms@), (u, i))),
    {
        let mut marked: Vec<Vec<bool>> = Vec::new();
        let mut u: usize = 0;
        while u < self.size
            invariant
                self.wf(),
                u <= self.size,
                marked@.len() == u,
                forall|w: int|
                    0 <= w < u ==> (#[trigger] marked@[w])@.len() == self.graph@[w]@.len(),
                forall|w: int, i: int|
                    0 <= w < u && 0 <= i < self.graph@[w]@.len() ==> !(#[trigger] marked@[w]@[i]),
            decreases self.size - u,
        {
            let mut row: Vec<bool> = Vec::new();
            let mut i: usize = 0;
            while i < self.graph[u].len()
                invariant
                    self.wf(),
                    u < self.size,
                    i <= self.graph@[u as int]@.len(),
                    row@.len() == i,
                    forall|k: int| 0 <= k < i ==> !(#[trigger] row@[k]),
                decreases self.graph@[u as int]@.len() - i,
            {
                row.push(false);
                i = i + 1;
            }
            marked.push(row);
            u = u + 1;
        }
        let mut a: usize = 0;
        while a < paths.len()
            invariant
                self.wf(),
                doms@.len() == self.size,
                pdoms@.len() == self.size,
                self.steps_valid(rows(paths@)),
                a <= paths@.len(),
                marked@.len() == self.size,
                forall|u: int|
                    0 <= u < self.size ==> (#[trigger] marked@[u])@.len() == self.graph@[u]@.len(),
                forall|u: usize, i: usize|
                    u < self.size && i < self.graph@[u as int]@.len() ==> (
                    #[trigger] marked@[u as int]@[i as int] <==> on_paths(
                        rows(paths@).take(a as int),
                        (u, i),
                    ) && self.interior(fsub, set_views(doms@), set_views(pdoms@), (u, i))),
            decreases paths@.len() - a,
        {
            let path = &paths[a];
            let ghost done = rows(paths@).take(a as int);
            let ghost steps = rows(paths@)[a as int];
            let mut j: usize = 0;
            proof {
                let shorter = done.push(steps.take(0));
                assert forall|x: Step| on_paths(shorter, x) <==> on_paths(done, x) by {
                    if on_paths(shorter, x) {
                        let (k, l) = choose|k: int, l: int|
                            0 <= k < shorter.len() && 0 <= l < shorter[k].len()
                                && #[trigger] shorter[k][l] == x;
                        assert(done[k][l] == x);
                    }
                    if on_paths(done, x) {
                        let (k, l) = choose|k: int, l: int|
                            0 <= k < done.len() && 0 <= l < done[k].len() && #[trigger] done[k][l]
                                == x;
                        assert(shorter[k][l] == x);
                    }
                }
            }
            while j < path.len()
                invariant
                    self.wf(),
                    doms@.len() == self.size,
                    pdoms@.len() == self.size,
                    self.steps_valid(rows(paths@)),
                    a < paths@.len(),
                    done == rows(paths@).take(a as int),
                    steps == rows(paths@)[a as int],
                    steps == path@,
                    j <= path@.len(),
                    marked@.len() == self.size,
                    forall|u: int|
                        0 <= u < self.size ==> (#[trigger] marked@[u])@.len()
                            == self.graph@[u]@.len(),
                    forall|u: usize, i: usize|
                        u < self.size && i < self.graph@[u as int]@.len() ==> (
                        #[trigger] marked@[u as int]@[i as int] <==> on_paths(
                            done.push(steps.take(j as int)),
                            (u, i),
                        ) && self.interior(fsub, set_views(doms@), set_views(pdoms@), (u, i))),
                decreases path@.len() - j,
            {
                let step = path[j];
                assert(rows(paths@)[a as int][j as int] == step);
                let inside = self.is_interior(fsub, doms, pdoms, step);
                let ghost before = marked@;
                if inside {
                    marked[step.0].set(step.1, true);
                }
                proof {
                    let shorter = done.push(steps.take(j as int));
                    let longer = done.push(steps.take(j + 1));
                    assert forall|x: Step| on_paths(longer, x) <==> on_paths(shorter, x) || x
                        == step by {
                        if on_paths(longer, x) {
                            let (k, l) = choose|k: int, l: int|
                                0 <= k < longer.len() && 0 <= l < longer[k].len()
                                    && #[trigger] longer[k][l] == x;
                            if k < done.len() {
                                assert(shorter[k][l] == x);
                            } else if l < j {
                                assert(shorter[k][l] == x);
                            }
                        }
                        if on_paths(shorter, x) {
                            let (k, l) = choose|k: int, l: int|
                                0 <= k < shorter.len() && 0 <= l < shorter[k].len()
                                    && #[trigger] shorter[k][l] == x;
                            assert(longer[k][l] == x);
                        }
                        if x == step {
                            assert(longer[done.len() as int][j as int] == x);
                        }
                    }
                    assert forall|u: usize, i: usize|
                        u < self.size && i < self.graph@[u as int]@.len() implies (
                    #[trigger] marked@[u as int]@[i as int] <==> on_paths(longer, (u, i))
                        && self.interior(fsub, set_views(doms@), set_views(pdoms@), (u, i))) by {
                        let x = (u, i);
                        assert(before[u as int]@[i as int] <==> on_paths(shorter, x) && self.interior(
                            fsub,
                            set_views(doms@),
                            set_views(pdoms@),
                            x,
                        ));
                        assert(on_paths(longer, x) <==> on_paths(shorter, x) || x == step);
                        if x == step {
                            assert(u == step.0 && i == step.1);
                        } else {
                            assert(u != step.0 || i != step.1);
                            assert(marked@[u as int]@[i as int] == before[u as int]@[i as int]);
                        }
                    }
                }
                j = j + 1;
            }
            proof {
                assert(steps.take(path@.len() as int) =~= steps);
                assert(done.push(steps) =~= rows(paths@).take(a + 1));
            }
            a = a + 1;
        }
        assert(rows(paths@).take(paths@.len() as int) =~= rows(paths@));
        marked
    }
}

impl Deriv {
    /// The greater node of a pair: the one nearer to the root.
    pub open spec fn start_of(fsub: (usize, usize)) -> usize {
        if fsub.0 > fsub.1 {
            fsub.0
        } else {
            fsub.1
        }
    }

    /// The smaller node of a pair.
    pub open spec fn goal_of(fsub: (usize, usize)) -> usize {
        if fsub.0 > fsub.1 {
            fsub.1
        } else {
            fsub.0
        }
    }

    /// The sum over the paths between the nodes of a pair.
    pub open spec fn span_sum(&self, fsub: (usize, usize)) -> Expr {
        self.paths_sum(self.paths_from(Self::start_of(fsub) as int, Self::goal_of(fsub) as int))
    }

    /// The places of the edges of node `u` that `shrink` takes out.
    pub open spec fn gone_at(
        &self,
        fsub: (usize, usize),
        doms: Seq<Set<usize>>,
        pdoms: Seq<Set<usize>>,
        u: usize,
    ) -> spec_fn(int) -> bool {
        |i: int| self.removed(fsub, doms, pdoms, (u, i as usize))
    }

    /// The edges of node `u` that `shrink` leaves.
    pub open spec fn row_after(
        &self,
        fsub: (usize, usize),
        doms: Seq<Set<usize>>,
        pdoms: Seq<Set<usize>>,
        u: usize,
    ) -> Seq<Edge> {
        kept(
            self.graph@[u as int]@,
            0,
            self.gone_at(fsub, doms, pdoms, u),
        )
    }

    /// Whether `after` is this graph with the edges that `shrink` takes out
    /// gone, and with one new edge from the greater node of the pair to the
    /// smaller one, which carries `folded`, at the end of the edges of the
    /// greater node.
    pub open spec fn shrunk_to(
        &self,
        after: &Deriv,
        fsub: (usize, usize),
        doms: Seq<Set<usize>>,
        pdoms: Seq<Set<usize>>,
        folded: Expr,
    ) -> bool {
        &&& after.wf()
        &&& after.size == self.size
        &&& after.root == self.root
        &&& after.leafs == self.leafs
        &&& after.diff_by == self.diff_by
        &&& forall|u: usize|
            u < self.size && u != Self::start_of(fsub) ==> (#[trigger] after.graph@[u as int])@
                == self.row_after(fsub, doms, pdoms, u)
        &&& after.graph@[Self::start_of(fsub) as int]@ == self.row_after(
            fsub,
            doms,
            pdoms,
            Self::start_of(fsub),
        ).push(Edge { to: Self::goal_of(fsub), exp: Rc::new(folded) })
    }

    /// A graph that was shrunk has as many edges as before, less those taken
    /// out, and one more.
    pub proof fn lemma_shrunk_edge_count(
        &self,
        after: &Deriv,
        fsub: (usize, usize),
        doms: Seq<Set<usize>>,
        pdoms: Seq<Set<usize>>,
        folded: Expr,
        n: int,
    )
        requires
            self.wf(),
            self.shrunk_to(after, fsub, doms, pdoms, folded),
            Self::start_of(fsub) < self.size,
            0 <= n <= self.size,
        ensures
            edges_upto(after.graph@, n) + self.removed_upto(fsub, doms, pdoms, n) == edges_upto(
                self.graph@,
                n,
            ) + if Self::start_of(fsub) < n {
                1nat
            } else {
                0nat
            },
        decreases n,
    {
        if n > 0 {
            self.lemma_shrunk_edge_count(after, fsub, doms, pdoms, folded, n - 1);
            let u = (n - 1) as usize;
            let gone = self.gone_at(fsub, doms, pdoms, u);
            lemma_kept_len(self.graph@[u as int]@, 0, gone);
            assert(after.graph@[u as int]@.len() == self.row_after(fsub, doms, pdoms, u).len() + if u
                == Self::start_of(fsub) {
                1nat
            } else {
                0nat
            });
        }
    }

    /// Where `shrink` takes out two edges or more, the graph has fewer edges
    /// after it than before.
    pub proof fn lemma_shrink_decreases(
        &self,
        after: &Deriv,
        fsub: (usize, usize),
        doms: Seq<Set<usize>>,
        pdoms: Seq<Set<usize>>,
        folded: Expr,
    )
        requires
            self.wf(),
            self.shrunk_to(after, fsub, doms, pdoms, folded),
            Self::start_of(fsub) < self.size,
            self.removed_upto(fsub, doms, pdoms, self.size as int) >= 2,
        ensures
            after.edge_count() < self.edge_count(),
    {
        self.lemma_shrunk_edge_count(after, fsub, doms, pdoms, folded, self.size as int);
    }

    /// Folds the paths between the two nodes of a pair into one edge. The
    /// paths run from the greater node, which is nearer to the root, down to
    /// the smaller one. The new edge carries the reduced sum, over the paths,
    /// of the products of their edges; the edges of the paths that lie inside
    /// the part of the graph that the pair spans are taken out. Where the sum
    /// does not reduce, the graph is left as it was.
    pub fn shrink(
        &mut self,
        fsub: (usize, usize),
        doms: &Vec<HashSet<usize>>,
        pdoms: &Vec<HashSet<usize>>,
        env: &mut Environment,
    ) -> (r: Result<(), Error>)
        requires
            old(self).wf(),
            doms@.len() == old(self).size,
            pdoms@.len() == old(self).size,
            fsub.0 < old(self).size,
            fsub.1 < old(self).size,
            fsub.0 != fsub.1,
        ensures
            final(env).names() == old(env).names(),
            old(env).cache().subset_of(final(env).cache()),
            match r {
                Ok(_) => {
                    &&& reduced(old(self).span_sum(fsub)) matches Ok(folded)
                    &&& same_value(old(self).span_sum(fsub), folded)
                    &&& old(self).shrunk_to(final(self), fsub, set_views(doms@), set_views(pdoms@), folded)
                    &&& final(self).edge_count() + old(self).removed_upto(
                        fsub,
                        set_views(doms@),
                        set_views(pdoms@),
                        old(self).size as int,
                    ) == old(self).edge_count() + 1
                },
                Err(err) => {
                    &&& reduced(old(self).span_sum(fsub)) == Err::<Expr, Error>(err)
                    &&& *final(self) == *old(self)
                },
            },
    {
        let (start, goal) = if fsub.0 > fsub.1 {
            (fsub.0, fsub.1)
        } else {
            (fsub.1, fsub.0)
        };
        let mut prefix: Vec<Step> = Vec::new();
        let mut paths: Vec<Vec<Step>> = Vec::new();
        self.collect_paths(start, goal, &mut prefix, &mut paths);
        proof {
            let found = self.paths_from(start as int, goal as int);
            assert(rows(paths@) =~= found) by {
                assert forall|k: int| 0 <= k < found.len() implies prefixed(
                    Seq::<Step>::empty(),
                    found,
                )[k] == found[k] by {
                    assert(Seq::<Step>::empty() + found[k] =~= found[k]);
                }
            }
            self.lemma_paths_from_valid(start as int, goal as int);
        }
        let sum = self.sum_of_paths(&paths, env);
        let res = match sum.reduce(env) {
            Ok(x) => x,
            Err(err) => {
                return Err(err);
            },
        };
        let marked = self.mark_paths(fsub, doms, pdoms, &paths);
        let ghost before = *self;
        let mut u: usize = 0;
        while u < self.size
            invariant
                before == *old(self),
                before.wf(),
                self.wf(),
                self.size == before.size,
                self.root == before.root,
                self.leafs == before.leafs,
                self.diff_by == before.diff_by,
                u <= self.size,
                marked@.len() == before.size,
                forall|w: int|
                    0 <= w < before.size ==> (#[trigger] marked@[w])@.len()
                        == before.graph@[w]@.len(),
                forall|w: int|
                    0 <= w < u ==> (#[trigger] self.graph@[w])@ == kept(
                        before.graph@[w]@,
                        0,
                        gone_in(marked@, w),
                    ),
                forall|w: int| u <= w < self.size ==> #[trigger] self.graph@[w] == before.graph@[w],
            decreases self.size - u,
        {
            let ghost row = before.graph@[u as int]@;
            let ghost gone = gone_in(marked@, u as int);
            let mut i: usize = self.graph[u].len();
            proof {
                assert(row.take(i as int) =~= row);
                assert(row.skip(i as int) =~= Seq::<Edge>::empty());
                assert(row.take(i as int) + kept(row.skip(i as int), i as int, gone) =~= row);
            }
            while i > 0
                invariant
                    before.wf(),
                    self.wf(),
                    self.size == before.size,
                    self.root == before.root,
                    self.leafs == before.leafs,
                    self.diff_by == before.diff_by,
                    u < self.size,
                    row == before.graph@[u as int]@,
                    gone == gone_in(marked@, u as int),
                    i <= row.len(),
                    marked@.len() == before.size,
                    marked@[u as int]@.len() == row.len(),
                    self.graph@[u as int]@ == row.take(i as int) + kept(
                        row.skip(i as int),
                        i as int,
                        gone,
                    ),
                    forall|w: int|
                        0 <= w < u ==> (#[trigger] self.graph@[w])@ == kept(
                            before.graph@[w]@,
                            0,
                            gone_in(marked@, w),
                        ),
                    forall|w: int|
                        u < w < self.size ==> #[trigger] self.graph@[w] == before.graph@[w],
                decreases i,
            {
                i = i - 1;
                let ghost current = self.graph@[u as int]@;
                let ghost rest = kept(row.skip(i + 1), i + 1, gone);
                proof {
                    assert(row.skip(i as int).drop_first() =~= row.skip(i + 1));
                    assert(row.skip(i as int)[0] == row[i as int]);
                    assert(current == row.take(i + 1) + rest);
                    assert(current[i as int] == row[i as int]);
                }
                if marked[u][i] {
                    let ghost prior = *self;
                    self.remove_edge(u, i);
                    proof {
                        assert(gone(i as int));
                        assert(self.graph@[u as int]@ =~= row.take(i as int) + rest);
                        assert forall|w: int| 0 <= w < u implies (#[trigger] self.graph@[w])@
                            == kept(before.graph@[w]@, 0, gone_in(marked@, w)) by {
                            assert(self.graph@[w] == prior.graph@[w]);
                        }
                        assert forall|w: int| u < w < self.size implies #[trigger] self.graph@[w]
                            == before.graph@[w] by {
                            assert(self.graph@[w] == prior.graph@[w]);
                        }
                    }
                } else {
                    proof {
                        assert(!gone(i as int));
                        assert(current =~= row.take(i as int) + (seq![row[i as int]] + rest));
                    }
                }
            }
            proof {
                assert(row.skip(0) =~= row);
                assert(row.take(0) + kept(row, 0, gone) =~= kept(row, 0, gone));
            }
            u = u + 1;
        }
        let ghost thinned = *self;
        self.add_edge(start, goal, res);
        proof {
            let folded = *res;
            assert forall|w: usize| w < before.size implies thinned.graph@[w as int]@
                == before.row_after(fsub, set_views(doms@), set_views(pdoms@), w) by {
                let row = before.graph@[w as int]@;
                let by_step = before.gone_at(fsub, set_views(doms@), set_views(pdoms@), w);
                assert(row.len() == before.graph@[w as int].len());
                assert forall|i: int| 0 <= i < 0 + row.len() implies #[trigger] gone_in(
                    marked@,
                    w as int,
                )(i) == by_step(i) by {
                    assert(marked@[w as int]@[i as usize as int] <==> on_paths(
                        rows(paths@),
                        (w, i as usize),
                    ) && before.interior(fsub, set_views(doms@), set_views(pdoms@), (w, i as usize)));
                }
                lemma_kept_agree(row, 0, gone_in(marked@, w as int), by_step);
            }
            assert(before.shrunk_to(self, fsub, set_views(doms@), set_views(pdoms@), folded));
            before.lemma_shrunk_edge_count(
                self,
                fsub,
                set_views(doms@),
                set_views(pdoms@),
                folded,
                before.size as int,
            );
        }
        Ok(())
    }
}

} // verus!
