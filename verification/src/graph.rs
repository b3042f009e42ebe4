//! The derivative graph: one node for each distinct subexpression, one edge
//! for each operand, which carries the derivative of the parent with respect
//! to that operand.
use crate::expr::{share, Expr, Var};
use std::collections::HashMap;
use std::rc::Rc;
use vstd::prelude::*;

verus! {

/// An edge to the node `to`, with the expression it carries. In the reverse
/// graph `to` is the node the edge comes from.
#[derive(Debug)]
pub struct Edge {
    pub to: usize,
    pub exp: Rc<Expr>,
}

impl Clone for Edge {
    fn clone(&self) -> (r: Edge)
        ensures
            r == *self,
    {
        Edge { to: self.to, exp: share(&self.exp) }
    }
}

/// How many edges of the list lead to `to` and carry `e`.
pub open spec fn edge_count(s: Seq<Edge>, to: int, e: Expr) -> nat {
    s.to_multiset().count(Edge { to: to as usize, exp: Rc::new(e) })
}

/// The derivative graph of one expression with respect to one variable.
#[derive(Debug)]
pub struct Deriv {
    /// The number of nodes.
    pub size: usize,
    /// The node of the whole expression: the last one.
    pub root: usize,
    /// The leaves: a variable's node with its variable, a constant's with
    /// `None`.
    pub leafs: HashMap<usize, Option<Var>>,
    /// For each node, the edges to its operands.
    pub graph: Vec<Vec<Edge>>,
    /// For each node, the edges of `graph` that lead to it, each under the
    /// node it comes from.
    pub reverse_graph: Vec<Vec<Edge>>,
    /// The variable of the derivative.
    pub diff_by: Var,
}

impl Deriv {
    /// Whether the graph is well formed: the root is the last node, every
    /// edge leads to a node with a smaller number, the leaves are nodes, and
    /// the reverse graph holds each edge of the graph once for each time the
    /// graph holds it.
    pub open spec fn wf(&self) -> bool {
        &&& self.size >= 1
        &&& self.root == self.size - 1
        &&& self.graph@.len() == self.size
        &&& self.reverse_graph@.len() == self.size
        &&& forall|u: int, i: int|
            0 <= u < self.size && 0 <= i < self.graph@[u]@.len() ==> (
            #[trigger] self.graph@[u]@[i]).to < u
        &&& forall|v: int, j: int|
            0 <= v < self.size && 0 <= j < self.reverse_graph@[v]@.len() ==> v < (
            #[trigger] self.reverse_graph@[v]@[j]).to < self.size
        &&& forall|u: int, v: int, e: Expr|
            0 <= u < self.size && 0 <= v < self.size ==> #[trigger] edge_count(
                self.graph@[u]@,
                v,
                e,
            ) == edge_count(self.reverse_graph@[v]@, u, e)
        &&& forall|u: usize| #[trigger] self.leafs@.contains_key(u) ==> u < self.size
    }

    /// Whether an edge leads from `u` to `v`.
    pub open spec fn has_edge(&self, u: int, v: int) -> bool {
        exists|i: int| 0 <= i < self.graph@[u]@.len() && (#[trigger] self.graph@[u]@[i]).to == v
    }

    /// The nodes that have an edge to `v` are those that the reverse graph
    /// lists for `v`.
    pub proof fn lemma_mirror(&self, u: int, v: int)
        requires
            self.wf(),
            0 <= u < self.size,
            0 <= v < self.size,
        ensures
            self.has_edge(u, v) <==> exists|j: int|
                0 <= j < self.reverse_graph@[v]@.len() && (
                #[trigger] self.reverse_graph@[v]@[j]).to == u,
    {
        broadcast use vstd::seq_lib::group_to_multiset_ensures;

        let row = self.graph@[u]@;
        let back = self.reverse_graph@[v]@;
        if self.has_edge(u, v) {
            let i = choose|i: int| 0 <= i < row.len() && (#[trigger] row[i]).to == v;
            let e = *row[i].exp;
            assert(row[i] == Edge { to: v as usize, exp: Rc::new(e) });
            assert(row.contains(row[i]));
            assert(edge_count(row, v, e) > 0);
            assert(edge_count(back, u, e) > 0);
            let x = Edge { to: u as usize, exp: Rc::new(e) };
            assert(back.contains(x));
            let j = choose|j: int| 0 <= j < back.len() && back[j] == x;
            assert(back[j].to == u);
        }
        if exists|j: int| 0 <= j < back.len() && (#[trigger] back[j]).to == u {
            let j = choose|j: int| 0 <= j < back.len() && (#[trigger] back[j]).to == u;
            let e = *back[j].exp;
            assert(back[j] == Edge { to: u as usize, exp: Rc::new(e) });
            assert(back.contains(back[j]));
            assert(edge_count(back, u, e) > 0);
            assert(edge_count(row, v, e) > 0);
            let x = Edge { to: v as usize, exp: Rc::new(e) };
            assert(row.contains(x));
            let i = choose|i: int| 0 <= i < row.len() && row[i] == x;
            assert(row[i].to == v);
        }
    }

    /// Adds an edge from `from` to `to` that carries `exp`, at the end of the
    /// edges of `from`, and its mirror in the reverse graph.
    pub fn add_edge(&mut self, from: usize, to: usize, exp: Rc<Expr>)
        requires
            old(self).wf(),
            to < from < old(self).size,
        ensures
            final(self).wf(),
            final(self).size == old(self).size,
            final(self).root == old(self).root,
            final(self).leafs == old(self).leafs,
            final(self).diff_by == old(self).diff_by,
            final(self).graph@.len() == old(self).graph@.len(),
            final(self).graph@[from as int]@ == old(self).graph@[from as int]@.push(
                Edge { to, exp },
            ),
            forall|u: int|
                0 <= u < old(self).size && u != from ==> final(self).graph@[u] == old(
                    self,
                ).graph@[u],
            final(self).reverse_graph@.len() == old(self).reverse_graph@.len(),
            final(self).reverse_graph@[to as int]@ == old(self).reverse_graph@[to as int]@.push(
                Edge { to: from, exp },
            ),
            forall|v: int|
                0 <= v < old(self).size && v != to ==> final(self).reverse_graph@[v] == old(
                    self,
                ).reverse_graph@[v],
    {
        broadcast use vstd::seq_lib::group_to_multiset_ensures;

        let edge = Edge { to, exp: share(&exp) };
        let redge = Edge { to: from, exp };
        self.graph[from].push(edge);
        self.reverse_graph[to].push(redge);
        proof {
            assert forall|u: int, v: int, e: Expr|
                0 <= u < self.size && 0 <= v < self.size implies #[trigger] edge_count(
                self.graph@[u]@,
                v,
                e,
            ) == edge_count(self.reverse_graph@[v]@, u, e) by {
                assert(edge_count(old(self).graph@[u]@, v, e) == edge_count(
                    old(self).reverse_graph@[v]@,
                    u,
                    e,
                ));
            }
        }
    }

    /// Takes the edge at position `i` out of the edges of `from`, and one
    /// mirror of it out of the reverse graph.
    pub fn remove_edge(&mut self, from: usize, i: usize) -> (edge: Edge)
        requires
            old(self).wf(),
            from < old(self).size,
            i < old(self).graph@[from as int]@.len(),
        ensures
            final(self).wf(),
            edge == old(self).graph@[from as int]@[i as int],
            final(self).size == old(self).size,
            final(self).root == old(self).root,
            final(self).leafs == old(self).leafs,
            final(self).diff_by == old(self).diff_by,
            final(self).graph@.len() == old(self).graph@.len(),
            final(self).graph@[from as int]@ == old(self).graph@[from as int]@.remove(i as int),
            forall|u: int|
                0 <= u < old(self).size && u != from ==> final(self).graph@[u] == old(
                    self,
                ).graph@[u],
            final(self).reverse_graph@.len() == old(self).reverse_graph@.len(),
            exists|j: int|
                0 <= j < old(self).reverse_graph@[edge.to as int]@.len() && old(
                    self,
                ).reverse_graph@[edge.to as int]@[j] == (Edge { to: from, exp: edge.exp })
                    && final(self).reverse_graph@[edge.to as int]@ == old(
                    self,
                ).reverse_graph@[edge.to as int]@.remove(j),
            forall|v: int|
                0 <= v < old(self).size && v != edge.to ==> final(self).reverse_graph@[v] == old(
                    self,
                ).reverse_graph@[v],
    {
        broadcast use vstd::seq_lib::group_to_multiset_ensures;

        let ghost row = self.graph@[from as int]@;
        let ghost x = row[i as int];
        let ghost back = self.reverse_graph@[x.to as int]@;
        let ghost y = Edge { to: from, exp: x.exp };
        proof {
            assert(x == Edge { to: x.to as int as usize, exp: Rc::new(*x.exp) });
            assert(row.contains(x));
            assert(edge_count(row, x.to as int, *x.exp) > 0);
            assert(edge_count(back, from as int, *x.exp) > 0);
            assert(back.contains(y));
        }
        let edge = self.graph[from].remove(i);
        let to = edge.to;
        let mut j: usize = 0;
        while j < self.reverse_graph[to].len() && !(self.reverse_graph[to][j].to == from
            && self.reverse_graph[to][j].exp.same(&edge.exp))
            invariant
                to < self.reverse_graph@.len(),
                self.reverse_graph@[to as int]@ == back,
                edge == x,
                y == (Edge { to: from, exp: x.exp }),
                j <= back.len(),
                forall|k: int| 0 <= k < j ==> back[k] != y,
            decreases back.len() - j,
        {
            j = j + 1;
        }
        proof {
            if j >= back.len() {
                let k = choose|k: int| 0 <= k < back.len() && back[k] == y;
                assert(false);
            }
            assert(back[j as int] == y);
        }
        self.reverse_graph[to].remove(j);
        proof {
            assert forall|u: int, v: int, e: Expr|
                0 <= u < self.size && 0 <= v < self.size implies #[trigger] edge_count(
                self.graph@[u]@,
                v,
                e,
            ) == edge_count(self.reverse_graph@[v]@, u, e) by {
                assert(edge_count(old(self).graph@[u]@, v, e) == edge_count(
                    old(self).reverse_graph@[v]@,
                    u,
                    e,
                ));
                let fwd = Edge { to: v as usize, exp: Rc::new(e) };
                let bwd = Edge { to: u as usize, exp: Rc::new(e) };
                if u == from && v == to {
                    assert((fwd == x) <==> (bwd == y));
                } else {
                    if u == from {
                        assert(fwd != x);
                    }
                    if v == to {
                        assert(bwd != y);
                    }
                }
            }
            assert forall|u: int, k: int|
                0 <= u < self.size && 0 <= k < self.graph@[u]@.len() implies (
            #[trigger] self.graph@[u]@[k]).to < u by {
                if u == from {
                    if k < i {
                        assert(self.graph@[u]@[k] == row[k]);
                    } else {
                        assert(self.graph@[u]@[k] == row[k + 1]);
                    }
                }
            }
            assert forall|v: int, k: int|
                0 <= v < self.size && 0 <= k < self.reverse_graph@[v]@.len() implies v < (
            #[trigger] self.reverse_graph@[v]@[k]).to < self.size by {
                if v == to {
                    if k < j {
                        assert(self.reverse_graph@[v]@[k] == back[k]);
                    } else {
                        assert(self.reverse_graph@[v]@[k] == back[k + 1]);
                    }
                }
            }
        }
        edge
    }
}

} // verus!
