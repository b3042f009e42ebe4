//! Factoring a whole derivative graph.
use crate::dominance::set_views;
use crate::env::Environment;
use crate::error::Error;
use crate::expr::Expr;
use crate::factor::in_order;
use crate::graph::Deriv;
use crate::simplify::reduced;
use std::collections::HashSet;
use vstd::prelude::*;

verus! {

impl Deriv {
    /// For each node, the nodes that dominate it.
    pub open spec fn dominator_sets(&self) -> Seq<Set<usize>> {
        Seq::new(self.size as nat, |n: int| Set::new(|d: usize| self.dominates(d as int, n)))
    }

    /// For each node, the nodes that post-dominate it.
    pub open spec fn post_dominator_sets(&self) -> Seq<Set<usize>> {
        Seq::new(
            self.size as nat,
            |n: int| Set::new(|d: usize| d < self.size && self.post_dominates(d as int, n)),
        )
    }

    /// The pairs between which the graph is factored, in the order in which
    /// they are taken.
    pub open spec fn factor_order(&self) -> Seq<(usize, usize)> {
        in_order(self.candidates(self.dominator_sets(), self.post_dominator_sets()))
    }

    /// Whether each graph of the list but the first is the one before it,
    /// shrunk between the pair of its place.
    pub open spec fn shrunk_along(
        stages: Seq<Deriv>,
        pairs: Seq<(usize, usize)>,
        doms: Seq<Set<usize>>,
        pdoms: Seq<Set<usize>>,
    ) -> bool {
        &&& stages.len() == pairs.len() + 1
        &&& forall|k: int|
            0 <= k < pairs.len() ==> reduced((#[trigger] stages[k]).span_sum(pairs[k])) is Ok
                && stages[k].shrunk_to(
                &stages[k + 1],
                pairs[k],
                doms,
                pdoms,
                reduced(stages[k].span_sum(pairs[k]))->Ok_0,
            )
    }

    /// Factors the graph: finds the dominators and post-dominators of its
    /// nodes and, from them, the pairs of nodes between which paths part and
    /// meet again, and shrinks the graph between each pair in turn, the
    /// nearest pairs first. The dominators are those of the graph as it is
    /// given; they are not found anew between two shrinks, so that a later
    /// shrink may take out an edge that an earlier one has given new paths.
    /// The first sum of paths that does not reduce ends the work with its
    /// error.
    pub fn factor(self, env: &mut Environment) -> (r: Result<Deriv, Error>)
        requires
            self.wf(),
        ensures
            final(env).names() == old(env).names(),
            old(env).cache().subset_of(final(env).cache()),
            match r {
                Ok(d) => {
                    &&& self.rooted()
                    &&& exists|stages: Seq<Deriv>|
                        {
                            &&& #[trigger] Self::shrunk_along(
                                stages,
                                self.factor_order(),
                                self.dominator_sets(),
                                self.post_dominator_sets(),
                            )
                            &&& stages[0] == self
                            &&& stages.last() == d
                        }
                },
                Err(err) => if !self.rooted() {
                    err == Error::DominatorIntersection
                } else {
                    exists|stages: Seq<Deriv>, k: int|
                        {
                            &&& 0 <= k < self.factor_order().len()
                            &&& #[trigger] Self::shrunk_along(
                                stages,
                                self.factor_order().take(k),
                                self.dominator_sets(),
                                self.post_dominator_sets(),
                            )
                            &&& stages[0] == self
                            &&& reduced(stages[k].span_sum(self.factor_order()[k])) == Err::<
                                Expr,
                                Error,
                            >(err)
                        }
                },
            },
    {
        let doms = match self.dom_rel() {
            Ok(doms) => doms,
            Err(err) => {
                return Err(err);
            },
        };
        let pdoms = self.pdom_rel();
        let ghost dv = self.dominator_sets();
        let ghost pv = self.post_dominator_sets();
        proof {
            assert(set_views(doms@) =~~= dv);
            assert(set_views(pdoms@) =~~= pv);
        }
        let order = self.factor_subgraphs(&doms, &pdoms);
        let ghost first = self;
        let mut d = self;
        let ghost mut stages: Seq<Deriv> = Seq::<Deriv>::empty().push(d);
        let mut k: usize = 0;
        while k < order.len()
            invariant
                first.wf(),
                first.rooted(),
                first == self,
                dv == self.dominator_sets(),
                pv == self.post_dominator_sets(),
                d.wf(),
                d.size == first.size,
                doms@.len() == first.size,
                pdoms@.len() == first.size,
                dv == set_views(doms@),
                pv == set_views(pdoms@),
                order@ == in_order(first.candidates(dv, pv)),
                forall|x: (usize, usize)|
                    order@.contains(x) ==> x.0 < first.size && x.1 < first.size && x.0 != x.1,
                k <= order@.len(),
                Self::shrunk_along(stages, order@.take(k as int), dv, pv),
                stages[0] == first,
                stages.last() == d,
                env.names() == old(env).names(),
                old(env).cache().subset_of(env.cache()),
            decreases order@.len() - k,
        {
            let fsub = order[k];
            assert(order@.contains(fsub));
            let ghost before = d;
            match d.shrink(fsub, &doms, &pdoms, env) {
                Ok(_) => {},
                Err(err) => {
                    proof {
                        assert(order@ == self.factor_order());
                        assert(stages[k as int] == before);
                        assert(Self::shrunk_along(stages, self.factor_order().take(k as int), dv, pv));
                        assert(reduced(stages[k as int].span_sum(self.factor_order()[k as int]))
                            == Err::<Expr, Error>(err));
                    }
                    return Err(err);
                },
            }
            proof {
                let longer = stages.push(d);
                let pairs = order@.take(k + 1);
                assert forall|i: int| 0 <= i < pairs.len() implies reduced(
                    (#[trigger] longer[i]).span_sum(pairs[i]),
                ) is Ok && longer[i].shrunk_to(
                    &longer[i + 1],
                    pairs[i],
                    dv,
                    pv,
                    reduced(longer[i].span_sum(pairs[i]))->Ok_0,
                ) by {
                    if i < k {
                        assert(longer[i] == stages[i]);
                        assert(longer[i + 1] == stages[i + 1]);
                        assert(pairs[i] == order@.take(k as int)[i]);
                    } else {
                        assert(longer[i] == before);
                        assert(longer[i + 1] == d);
                    }
                }
                stages = longer;
            }
            k = k + 1;
        }
        proof {
            assert(order@.take(k as int) =~= order@);
            assert(Self::shrunk_along(stages, self.factor_order(), dv, pv));
        }
        Ok(d)
    }
}

} // verus!
