//! Building the derivative graph of an expression.
use crate::derivative::{derivative, left_factor, right_factor, unary_factor};
use crate::value::{value, Functions};
use crate::env::{lookup, Environment};
use crate::error::Error;
use crate::expr::{pointee, Expr, Var};
use crate::graph::{Deriv, Edge};
use crate::postorder::{
    distinct, find, is_operand, lemma_post_order, operands_first, parents_after, post_index,
    post_order,
};
use crate::simplify::reduced;
use std::collections::HashMap;
use std::rc::Rc;
use vstd::prelude::*;
use vstd::string::StringExecFns;

verus! {

/// The edges that leave node `p`: one for each operand of its expression, in
/// their order, to the operand's node and with the derivative of the
/// expression with respect to that operand.
pub open spec fn node_edges(nodes: Seq<Expr>, p: int) -> Seq<Edge> {
    match nodes[p] {
        Expr::UnOp { op, exp } => seq![
            Edge { to: nodes.index_of(*exp) as usize, exp: Rc::new(unary_factor(op, *exp)) },
        ],
        Expr::BinOp { op, exp1, exp2 } => seq![
            Edge {
                to: nodes.index_of(*exp1) as usize,
                exp: Rc::new(left_factor(op, *exp1, *exp2)),
            },
            Edge {
                to: nodes.index_of(*exp2) as usize,
                exp: Rc::new(right_factor(op, *exp1, *exp2)),
            },
        ],
        _ => Seq::empty(),
    }
}

/// The mirrors of the edges of a row of node `p` that lead to `c`, in the
/// order of the row: each leads back to `p` with the expression of its edge.
pub open spec fn mirrored(row: Seq<Edge>, c: int, p: int) -> Seq<Edge>
    decreases row.len(),
{
    if row.len() == 0 {
        Seq::empty()
    } else if row.last().to == c {
        mirrored(row.drop_last(), c, p).push(Edge { to: p as usize, exp: row.last().exp })
    } else {
        mirrored(row.drop_last(), c, p)
    }
}

/// The edges that lead to node `c` from the nodes below `upto`: by rising
/// number of the node they come from, and for one node in the order of its
/// edges.
pub open spec fn incoming(nodes: Seq<Expr>, c: int, upto: int) -> Seq<Edge>
    decreases upto,
{
    if upto <= 0 {
        Seq::empty()
    } else {
        incoming(nodes, c, upto - 1) + mirrored(node_edges(nodes, upto - 1), c, upto - 1)
    }
}

/// What the leaf table holds for an expression: its variable for a variable,
/// `None` for a constant, no entry for an operator.
pub open spec fn leaf_of(e: Expr) -> Option<Option<Var>> {
    match e {
        Expr::Var(v) => Some(Some(v)),
        Expr::Num(_) => Some(None),
        _ => None,
    }
}

impl Deriv {
    /// Whether the graph has `n` nodes and neither edges nor leaves.
    pub open spec fn blank(&self, n: nat) -> bool {
        &&& n >= 1
        &&& self.size == n
        &&& self.root == n - 1
        &&& self.graph@.len() == n
        &&& self.reverse_graph@.len() == n
        &&& forall|u: int| 0 <= u < n ==> (#[trigger] self.graph@[u])@.len() == 0
        &&& forall|u: int| 0 <= u < n ==> (#[trigger] self.reverse_graph@[u])@.len() == 0
        &&& self.leafs@ == Map::<usize, Option<Var>>::empty()
    }

    /// Whether the nodes `from..to` of the graph are those of the list: the
    /// same edges, a leaf entry exactly for variables and constants, and in
    /// the reverse graph the mirrors of the edges of the nodes below `to`.
    pub open spec fn matches_nodes(&self, nodes: Seq<Expr>, from: int, to: int) -> bool {
        &&& forall|p: int| from <= p < to ==> (#[trigger] self.graph@[p])@ == node_edges(nodes, p)
        &&& forall|c: int|
            0 <= c < nodes.len() ==> (#[trigger] self.reverse_graph@[c])@ == incoming(nodes, c, to)
        &&& forall|u: usize|
            from <= u < to ==> (#[trigger] self.leafs@.contains_key(u) <==> leaf_of(
                nodes[u as int],
            ) is Some)
        &&& forall|u: usize|
            from <= u < to && #[trigger] self.leafs@.contains_key(u) ==> Some(self.leafs@[u])
                == leaf_of(nodes[u as int])
    }

    /// Whether the graph is the derivative graph of `e`: one node for each
    /// distinct subexpression, numbered operands first, so that `e` is the
    /// last node and the root.
    pub open spec fn is_graph_of(&self, e: Expr) -> bool {
        &&& self.wf()
        &&& self.size == post_order(e).len()
        &&& self.matches_nodes(post_order(e), 0, self.size as int)
    }

    /// Whether the leaves are the nodes that no edge leaves.
    pub open spec fn leaves_are_ends(&self) -> bool {
        forall|n: int|
            0 <= n < self.size ==> (self.leafs@.contains_key(n as usize) <==> (
            #[trigger] self.graph@[n])@.len() == 0)
    }

    /// Whether every node but the root has an edge that leads to it.
    pub open spec fn rooted(&self) -> bool {
        forall|v: int| 0 <= v < self.size - 1 ==> (#[trigger] self.reverse_graph@[v])@.len() > 0
    }

    /// Gives a blank graph the edges and leaves of the nodes.
    pub fn construct(nodes: &Vec<Expr>, d: &mut Deriv)
        requires
            distinct(nodes@),
            operands_first(nodes@),
            old(d).blank(nodes@.len()),
        ensures
            final(d).wf(),
            final(d).size == old(d).size,
            final(d).diff_by == old(d).diff_by,
            final(d).matches_nodes(nodes@, 0, nodes@.len() as int),
    {
        broadcast use vstd::seq_lib::group_to_multiset_ensures;

        let n = nodes.len();
        let mut p: usize = 0;
        proof {
            assert forall|u: int, v: int, e: Expr| 0 <= u < n && 0 <= v < n implies (
            #[trigger] crate::graph::edge_count(d.graph@[u]@, v, e)) == crate::graph::edge_count(
                d.reverse_graph@[v]@,
                u,
                e,
            ) by {
                assert(d.graph@[u]@ =~= Seq::<Edge>::empty());
                assert(d.reverse_graph@[v]@ =~= Seq::<Edge>::empty());
            }
        }
        proof {
            assert forall|c: int| 0 <= c < n implies (#[trigger] d.reverse_graph@[c])@ == incoming(
                nodes@,
                c,
                0,
            ) by {
                assert(d.reverse_graph@[c]@ =~= Seq::<Edge>::empty());
            }
        }
        while p < n
            invariant
                n == nodes@.len(),
                distinct(nodes@),
                operands_first(nodes@),
                p <= n,
                d.wf(),
                d.size == n,
                d.size == old(d).size,
                d.diff_by == old(d).diff_by,
                d.matches_nodes(nodes@, 0, p as int),
                forall|u: int| p <= u < n ==> (#[trigger] d.graph@[u])@.len() == 0,
                forall|u: usize| #[trigger] d.leafs@.contains_key(u) ==> u < p,
            decreases n - p,
        {
            let ghost before = *d;
            let ghost row = node_edges(nodes@, p as int);
            match &nodes[p] {
                Expr::UnOp { op, exp } => {
                    let ghost operand = pointee(exp);
                    proof {
                        lemma_operand_position(nodes@, p as int, operand);
                    }
                    let child_id = find(nodes, exp).unwrap();
                    let factor = Expr::unary_factor(*op, exp);
                    d.add_edge(p, child_id, factor);
                    assert(d.graph@[p as int]@ =~= row);
                    proof {
                        assert(row.drop_last() =~= Seq::<Edge>::empty());
                        assert forall|c: int| 0 <= c < n implies (#[trigger] d.reverse_graph@[c])@
                            == before.reverse_graph@[c]@ + mirrored(row, c, p as int) by {
                            assert(mirrored(row.drop_last(), c, p as int) =~= Seq::<Edge>::empty());
                            if c == child_id {
                                assert(d.reverse_graph@[c]@ =~= before.reverse_graph@[c]@
                                    + mirrored(row, c, p as int));
                            } else {
                                assert(d.reverse_graph@[c]@ =~= before.reverse_graph@[c]@
                                    + mirrored(row, c, p as int));
                            }
                        }
                    }
                },
                Expr::BinOp { op, exp1, exp2 } => {
                    let ghost left = pointee(exp1);
                    let ghost right = pointee(exp2);
                    proof {
                        lemma_operand_position(nodes@, p as int, left);
                        lemma_operand_position(nodes@, p as int, right);
                    }
                    let child1_id = find(nodes, exp1).unwrap();
                    let child2_id = find(nodes, exp2).unwrap();
                    let (d1, d2) = Expr::binary_factors(*op, exp1, exp2);
                    d.add_edge(p, child1_id, d1);
                    let ghost middle = *d;
                    d.add_edge(p, child2_id, d2);
                    assert(d.graph@[p as int]@ =~= row);
                    proof {
                        let first = row.drop_last();
                        assert(first.drop_last() =~= Seq::<Edge>::empty());
                        assert(first.last() == row[0]);
                        assert forall|c: int| 0 <= c < n implies (#[trigger] d.reverse_graph@[c])@
                            == before.reverse_graph@[c]@ + mirrored(row, c, p as int) by {
                            assert(mirrored(first.drop_last(), c, p as int) =~= Seq::<
                                Edge,
                            >::empty());
                            let one = mirrored(first, c, p as int);
                            assert(middle.reverse_graph@[c]@ =~= before.reverse_graph@[c]@ + one);
                            assert(d.reverse_graph@[c]@ =~= before.reverse_graph@[c]@ + mirrored(
                                row,
                                c,
                                p as int,
                            ));
                        }
                    }
                },
                Expr::Var(v) => {
                    d.leafs.insert(p, Some(*v));
                    proof {
                        assert forall|c: int| 0 <= c < n implies (#[trigger] d.reverse_graph@[c])@
                            == before.reverse_graph@[c]@ + mirrored(row, c, p as int) by {
                            assert(before.reverse_graph@[c]@ + Seq::<Edge>::empty()
                                =~= before.reverse_graph@[c]@);
                        }
                    }
                },
                Expr::Num(_) => {
                    d.leafs.insert(p, None);
                    proof {
                        assert forall|c: int| 0 <= c < n implies (#[trigger] d.reverse_graph@[c])@
                            == before.reverse_graph@[c]@ + mirrored(row, c, p as int) by {
                            assert(before.reverse_graph@[c]@ + Seq::<Edge>::empty()
                                =~= before.reverse_graph@[c]@);
                        }
                    }
                },
            }
            proof {
                assert forall|q: int| 0 <= q < p implies (#[trigger] d.graph@[q])@ == node_edges(
                    nodes@,
                    q,
                ) by {
                    assert(before.graph@[q]@ == node_edges(nodes@, q));
                }
                assert(d.graph@[p as int]@ == node_edges(nodes@, p as int));
                assert forall|c: int| 0 <= c < n implies (#[trigger] d.reverse_graph@[c])@
                    == incoming(nodes@, c, p + 1) by {
                    assert(before.reverse_graph@[c]@ == incoming(nodes@, c, p as int));
                }
            }
            p = p + 1;
        }
    }

    /// The derivative graph of the reduced expression with respect to the
    /// variable of the given name, which becomes a new variable if the
    /// environment does not know it. The sum over the paths of the graph is
    /// the derivative of the reduced expression; every node but the root has
    /// an edge that leads to it, and the leaves are the nodes that no edge
    /// leaves.
    pub fn new(expr: Rc<Expr>, e: &mut Environment, v: &str) -> (r: Result<Deriv, Error>)
        ensures
            match r {
                Ok(d) => {
                    &&& reduced(*expr) matches Ok(root_expr)
                    &&& d.is_graph_of(root_expr)
                    &&& d.rooted()
                    &&& d.leaves_are_ends()
                    &&& d.sums_to_derivative_of(root_expr)
                    &&& match lookup(old(e).names(), v@) {
                        Some(id) => d.diff_by@ == id && final(e).names() == old(e).names(),
                        None => d.diff_by@ == old(e).names().len() && final(e).names() == old(
                            e,
                        ).names().push(v@),
                    }
                    &&& final(e).cache() == old(e).cache()
                },
                Err(err) => {
                    &&& reduced(*expr) == Err::<Expr, Error>(err)
                    &&& final(e).names() == old(e).names()
                    &&& final(e).cache() == old(e).cache()
                },
            },
    {
        let expr = match expr.reduce(e) {
            Ok(x) => x,
            Err(err) => {
                return Err(err);
            },
        };
        let mut nodes: Vec<Expr> = Vec::new();
        post_index(&expr, &mut nodes);
        let ghost root_expr = pointee(&expr);
        proof {
            lemma_post_order(root_expr);
        }
        let size = nodes.len();
        let mut graph: Vec<Vec<Edge>> = Vec::new();
        let mut reverse_graph: Vec<Vec<Edge>> = Vec::new();
        let mut i: usize = 0;
        while i < size
            invariant
                i <= size,
                graph@.len() == i,
                reverse_graph@.len() == i,
                forall|u: int| 0 <= u < i ==> (#[trigger] graph@[u])@.len() == 0,
                forall|u: int| 0 <= u < i ==> (#[trigger] reverse_graph@[u])@.len() == 0,
            decreases size - i,
        {
            graph.push(Vec::new());
            reverse_graph.push(Vec::new());
            i = i + 1;
        }
        let name = String::from_str(v);
        let diff_by = match e.search_var(&name) {
            Some(x) => x,
            None => e.extend_var(name),
        };
        let mut d = Deriv {
            size,
            root: size - 1,
            leafs: HashMap::new(),
            graph,
            reverse_graph,
            diff_by,
        };
        Deriv::construct(&nodes, &mut d);
        proof {
            d.lemma_rooted(nodes@);
            assert forall|n: int| 0 <= n < d.size implies (d.leafs@.contains_key(n as usize) <==> (
            #[trigger] d.graph@[n])@.len() == 0) by {
                assert(d.graph@[n]@ == node_edges(nodes@, n));
                assert(d.leafs@.contains_key(n as usize) <==> leaf_of(nodes@[n as usize as int])
                    is Some);
            }
            assert forall|f: Functions, at: spec_fn(nat) -> real| #[trigger]
                d.path_value(d.root as int, f, at) == value(
                    derivative(root_expr, d.diff_by@),
                    f,
                    at,
                ) by {
                d.lemma_path_sum_is_derivative(nodes@, d.root as int, f, at);
            }
        }
        Ok(d)
    }

    /// A graph of nodes of which each but the last is an operand of a later
    /// one has an edge to every node but the root.
    pub proof fn lemma_rooted(&self, nodes: Seq<Expr>)
        requires
            self.wf(),
            self.size == nodes.len(),
            distinct(nodes),
            parents_after(nodes, 0),
            self.matches_nodes(nodes, 0, nodes.len() as int),
        ensures
            self.rooted(),
    {
        assert forall|v: int| 0 <= v < self.size - 1 implies (
        #[trigger] self.reverse_graph@[v])@.len() > 0 by {
            let p = choose|p: int|
                v < p < nodes.len() && is_operand(#[trigger] nodes[v], #[trigger] nodes[p]);
            let row = self.graph@[p]@;
            assert(row == node_edges(nodes, p));
            assert(nodes.contains(nodes[v]));
            assert(nodes.index_of(nodes[v]) == v);
            match nodes[p] {
                Expr::UnOp { .. } => {
                    assert(row[0].to == v);
                },
                Expr::BinOp { .. } => {
                    if nodes[p].operand() == nodes[v] {
                        assert(row[0].to == v);
                    } else {
                        assert(row[1].to == v);
                    }
                },
                _ => {},
            }
            assert(self.has_edge(p, v));
            self.lemma_mirror(p, v);
        }
    }
}

/// In a distinct list with operands first, an operand of the expression at
/// `p` has one position, and it is below `p`.
pub proof fn lemma_operand_position(nodes: Seq<Expr>, p: int, c: Expr)
    requires
        distinct(nodes),
        operands_first(nodes),
        0 <= p < nodes.len(),
        is_operand(c, nodes[p]),
    ensures
        nodes.contains(c),
        0 <= nodes.index_of(c) < p,
        forall|k: int| 0 <= k < nodes.len() && nodes[k] == c ==> k == nodes.index_of(c),
{
    let k = choose|k: int| 0 <= k < p && #[trigger] nodes[k] == c;
    assert(nodes[k] == c);
}

} // verus!
