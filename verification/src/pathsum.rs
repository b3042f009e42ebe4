//! The value of a derivative graph: the sum over its paths.
use crate::construct::{leaf_of, lemma_operand_position, node_edges};
use crate::derivative::{derivative, left_factor, right_factor, unary_factor};
use crate::expr::{Bop, Expr, Uop, Var};
use crate::graph::Deriv;
use crate::postorder::{distinct, is_operand, operands_first};
use crate::value::{lemma_num, value, Functions};
use vstd::prelude::*;

verus! {

/// The product of two numbers. Its body is hidden from proofs that do not
/// ask for it, so that they reason about sums of products by the laws of
/// `lemma_times` alone.
#[verifier::opaque]
pub open spec fn times(a: real, b: real) -> real {
    a * b
}

/// The laws of the product.
pub proof fn lemma_times(a: real, b: real, c: real)
    ensures
        times(a, b) == a * b,
        times(a, 0real) == 0real,
        times(0real, a) == 0real,
        times(a, 1real) == a,
        times(1real, a) == a,
        times(a, b) == times(b, a),
        times(a, b + c) == times(a, b) + times(a, c),
        times(a, times(b, c)) == times(b, times(a, c)),
        times(a, times(b, c)) == times(times(a, b), c),
{
    reveal(times);
    assert(a * 0real == 0real) by (nonlinear_arith);
    assert(0real * a == 0real) by (nonlinear_arith);
    assert(a * 1real == a) by (nonlinear_arith);
    assert(1real * a == a) by (nonlinear_arith);
    assert(a * b == b * a) by (nonlinear_arith);
    assert(a * (b + c) == a * b + a * c) by (nonlinear_arith);
    assert(a * (b * c) == b * (a * c)) by (nonlinear_arith);
    assert(a * (b * c) == (a * b) * c) by (nonlinear_arith);
}

/// The value of the expression that an edge carries.
pub open spec fn factor_value(edge: crate::graph::Edge, f: Functions, at: spec_fn(nat) -> real) -> real {
    value(*edge.exp, f, at)
}

/// The value that a walk through the graph has where it ends: `Some` at the
/// nodes at which walks end, `None` at the others.
pub type Ends = spec_fn(int) -> Option<real>;

impl Deriv {
    /// What an edge of node `n` adds to the value of `n`: the value of the
    /// edge's expression times the value of the node it leads to.
    pub open spec fn edge_value(
        &self,
        edge: crate::graph::Edge,
        n: int,
        ends: Ends,
        f: Functions,
        at: spec_fn(nat) -> real,
    ) -> real
        decreases n, 0int, 0int,
    {
        if 0 <= edge.to < n {
            times(factor_value(edge, f, at), self.weight(edge.to as int, ends, f, at))
        } else {
            0real
        }
    }

    /// The sum of what the edges of a row of node `n` add to the value of
    /// `n`.
    pub open spec fn row_sum(
        &self,
        row: Seq<crate::graph::Edge>,
        n: int,
        ends: Ends,
        f: Functions,
        at: spec_fn(nat) -> real,
    ) -> real
        decreases n, 1int, row.len(),
    {
        if row.len() == 0 {
            0real
        } else {
            self.row_sum(row.drop_last(), n, ends, f, at) + self.edge_value(
                row.last(),
                n,
                ends,
                f,
                at,
            )
        }
    }

    /// The value of node `n`: what `ends` gives it, if that is a value, else
    /// the sum over its edges. This is the sum, over the paths from `n` to
    /// the nodes at which walks end, of the product of the values of the
    /// expressions on the edges, times the value at the end.
    pub open spec fn weight(&self, n: int, ends: Ends, f: Functions, at: spec_fn(nat) -> real) -> real
        decreases n, 2int, 0int,
    {
        if n < 0 {
            0real
        } else {
            match ends(n) {
                Some(v) => v,
                None => self.row_sum(self.graph@[n]@, n, ends, f, at),
            }
        }
    }

    /// Walks end at the leaves: at the leaf of the variable of the
    /// derivative with the value one, at the others with zero.
    pub open spec fn leaf_ends(&self) -> Ends {
        |n: int|
            if self.leafs@.contains_key(n as usize) {
                if self.leafs@[n as usize] == Some(self.diff_by) {
                    Some(1real)
                } else {
                    Some(0real)
                }
            } else {
                None
            }
    }

    /// The value of node `n`: the sum, over the paths from `n` to the leaf of
    /// the variable of the derivative, of the product of the values of the
    /// expressions on the edges of the path. A path ends at the first leaf it
    /// meets.
    pub open spec fn path_value(&self, n: int, f: Functions, at: spec_fn(nat) -> real) -> real {
        self.weight(n, self.leaf_ends(), f, at)
    }

    /// Whether the value of the root is, for all functions and at every
    /// point, the value of the derivative of `e` with respect to the variable
    /// of the graph.
    pub open spec fn sums_to_derivative_of(&self, e: Expr) -> bool {
        forall|f: Functions, at: spec_fn(nat) -> real| #[trigger]
            self.path_value(self.root as int, f, at) == value(
                derivative(e, self.diff_by@),
                f,
                at,
            )
    }

    /// In the graph of an expression, the value of each node is the value of
    /// the derivative of the node's expression: the chain rule, written out
    /// as a sum over paths.
    pub proof fn lemma_path_sum_is_derivative(
        &self,
        nodes: Seq<Expr>,
        p: int,
        f: Functions,
        at: spec_fn(nat) -> real,
    )
        requires
            self.wf(),
            self.size == nodes.len(),
            distinct(nodes),
            operands_first(nodes),
            self.matches_nodes(nodes, 0, nodes.len() as int),
            0 <= p < self.size,
        ensures
            self.path_value(p, f, at) == value(derivative(nodes[p], self.diff_by@), f, at),
        decreases p,
    {
        reveal(times);
        lemma_num(0);
        lemma_num(1);
        lemma_num(-1i64);
        let row = self.graph@[p]@;
        assert(row == node_edges(nodes, p));
        let by = self.diff_by@;
        assert(self.leafs@.contains_key(p as usize) <==> leaf_of(nodes[p as usize as int]) is Some);
        match nodes[p] {
            Expr::Var(v) => {
                assert(Some(self.leafs@[p as usize]) == leaf_of(nodes[p as usize as int]));
                if v@ == by {
                    Var::lemma_view_injective(v, self.diff_by);
                }
                assert(self.path_value(p, f, at) == value(derivative(nodes[p], by), f, at));
            },
            Expr::Num(_) => {
                assert(Some(self.leafs@[p as usize]) == leaf_of(nodes[p as usize as int]));
                assert(self.path_value(p, f, at) == value(derivative(nodes[p], by), f, at));
            },
            Expr::UnOp { op, .. } => {
                let u = nodes[p].operand();
                lemma_operand_position(nodes, p, u);
                let c = nodes.index_of(u);
                self.lemma_path_sum_is_derivative(nodes, c, f, at);
                let du = value(derivative(u, by), f, at);
                let factor = value(unary_factor(op, u), f, at);
                assert(row[0].to == c);
                assert(*row[0].exp == unary_factor(op, u));
                let ends = self.leaf_ends();
                assert(row.drop_last() =~= Seq::<crate::graph::Edge>::empty());
                assert(self.row_sum(row.drop_last(), p, ends, f, at) == 0real);
                assert(self.edge_value(row.last(), p, ends, f, at) == factor * du);
                assert(self.row_sum(row, p, ends, f, at) == 0real + factor * du);
                assert(self.path_value(p, f, at) == factor * du);
                let d = derivative(nodes[p], by);
                match op {
                    Uop::Cos => {
                        let sin_u = crate::expr::unop(Uop::Sin, u);
                        let s = value(sin_u, f, at);
                        assert(factor == -s);
                        assert(d == crate::expr::unop(
                            Uop::Neg,
                            crate::expr::binop(Bop::Mul, sin_u, derivative(u, by)),
                        ));
                        assert(value(
                            crate::expr::binop(Bop::Mul, sin_u, derivative(u, by)),
                            f,
                            at,
                        ) == s * du);
                        assert(value(d, f, at) == -(s * du));
                        assert((-s) * du == -(s * du)) by (nonlinear_arith);
                    },
                    Uop::Neg => {
                        assert(factor == -1real);
                        assert(d == crate::expr::unop(Uop::Neg, derivative(u, by)));
                        assert(value(d, f, at) == -du);
                        assert((-1real) * du == -du) by (nonlinear_arith);
                    },
                    _ => {
                        assert(d == crate::expr::binop(
                            Bop::Mul,
                            unary_factor(op, u),
                            derivative(u, by),
                        ));
                        assert(value(d, f, at) == factor * du);
                    },
                }
                assert(self.path_value(p, f, at) == value(derivative(nodes[p], by), f, at));
            },
            Expr::BinOp { op, .. } => {
                let a = nodes[p].operand();
                let b = nodes[p].operand2();
                lemma_operand_position(nodes, p, a);
                lemma_operand_position(nodes, p, b);
                let ca = nodes.index_of(a);
                let cb = nodes.index_of(b);
                self.lemma_path_sum_is_derivative(nodes, ca, f, at);
                self.lemma_path_sum_is_derivative(nodes, cb, f, at);
                let da = value(derivative(a, by), f, at);
                let db = value(derivative(b, by), f, at);
                let fa = value(left_factor(op, a, b), f, at);
                let fb = value(right_factor(op, a, b), f, at);
                assert(row[0].to == ca && *row[0].exp == left_factor(op, a, b));
                assert(row[1].to == cb && *row[1].exp == right_factor(op, a, b));
                let ends = self.leaf_ends();
                let first = row.drop_last();
                assert(first.drop_last() =~= Seq::<crate::graph::Edge>::empty());
                assert(first.last() == row[0]);
                assert(self.row_sum(first.drop_last(), p, ends, f, at) == 0real);
                assert(self.edge_value(first.last(), p, ends, f, at) == fa * da);
                assert(self.row_sum(first, p, ends, f, at) == 0real + fa * da);
                assert(self.edge_value(row.last(), p, ends, f, at) == fb * db);
                assert(self.row_sum(row, p, ends, f, at) == 0real + fa * da + fb * db);
                assert(self.path_value(p, f, at) == fa * da + fb * db);
                let d = derivative(nodes[p], by);
                let left = crate::expr::binop(Bop::Mul, left_factor(op, a, b), derivative(a, by));
                let right = crate::expr::binop(Bop::Mul, right_factor(op, a, b), derivative(b, by));
                assert(d == crate::expr::binop(Bop::Add, left, right));
                assert(value(left, f, at) == fa * da);
                assert(value(right, f, at) == fb * db);
                assert(value(d, f, at) == fa * da + fb * db);
            },
        }
    }
}

} // verus!
