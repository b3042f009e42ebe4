//! Symbolic differentiation by the chain rule.
use crate::env::{lookup, Environment};
use crate::expr::{binop, num, share, unop, Bop, Expr, Uop, Var};
use std::rc::Rc;
use vstd::prelude::*;
use vstd::string::StringExecFns;

verus! {

/// The derivative of `op(u)` with respect to its operand `u`.
pub open spec fn unary_factor(op: Uop, u: Expr) -> Expr {
    match op {
        Uop::Sin => unop(Uop::Cos, u),
        Uop::Cos => unop(Uop::Neg, unop(Uop::Sin, u)),
        Uop::Tan => binop(Bop::Div, num(1), binop(Bop::Pow, unop(Uop::Cos, u), num(2))),
        Uop::Log => binop(Bop::Div, num(1), u),
        Uop::Exp => unop(Uop::Exp, u),
        Uop::Neg => num(-1i64),
    }
}

/// The derivative of `a op b` with respect to its left operand `a`.
pub open spec fn left_factor(op: Bop, a: Expr, b: Expr) -> Expr {
    match op {
        Bop::Add => num(1),
        Bop::Sub => num(1),
        Bop::Mul => b,
        Bop::Div => binop(Bop::Div, num(1), b),
        Bop::Pow => binop(Bop::Mul, binop(Bop::Div, b, a), binop(Bop::Pow, a, b)),
    }
}

/// The derivative of `a op b` with respect to its right operand `b`.
pub open spec fn right_factor(op: Bop, a: Expr, b: Expr) -> Expr {
    match op {
        Bop::Add => num(1),
        Bop::Sub => num(-1i64),
        Bop::Mul => a,
        Bop::Div => unop(Uop::Neg, binop(Bop::Div, a, binop(Bop::Pow, b, num(2)))),
        Bop::Pow => binop(Bop::Mul, unop(Uop::Log, a), binop(Bop::Pow, a, b)),
    }
}

/// The derivatives of an expression with respect to each of its operands, in
/// their order: one for a unary operator, two for a binary one, none for a
/// variable or a constant.
pub open spec fn local_factors(e: Expr) -> Seq<Expr> {
    match e {
        Expr::UnOp { op, exp } => seq![unary_factor(op, *exp)],
        Expr::BinOp { op, exp1, exp2 } => seq![
            left_factor(op, *exp1, *exp2),
            right_factor(op, *exp1, *exp2),
        ],
        Expr::Var(_) => Seq::empty(),
        Expr::Num(_) => Seq::empty(),
    }
}

/// The derivative of the expression with respect to the variable of number
/// `v`: one for the variable itself, zero for another variable or a
/// constant, and for an operator the sum, over its operands, of the
/// operand's factor times the operand's derivative. The cosine and the
/// negation carry their minus sign in front of the product.
pub open spec fn derivative(e: Expr, v: nat) -> Expr
    decreases e,
{
    match e {
        Expr::UnOp { op, exp } => match op {
            Uop::Cos => unop(
                Uop::Neg,
                binop(Bop::Mul, unop(Uop::Sin, *exp), derivative(*exp, v)),
            ),
            Uop::Neg => unop(Uop::Neg, derivative(*exp, v)),
            _ => binop(Bop::Mul, unary_factor(op, *exp), derivative(*exp, v)),
        },
        Expr::BinOp { op, exp1, exp2 } => binop(
            Bop::Add,
            binop(Bop::Mul, left_factor(op, *exp1, *exp2), derivative(*exp1, v)),
            binop(Bop::Mul, right_factor(op, *exp1, *exp2), derivative(*exp2, v)),
        ),
        Expr::Var(vt) => if vt@ == v {
            num(1)
        } else {
            num(0)
        },
        Expr::Num(_) => num(0),
    }
}

impl Expr {
    /// The derivative of `op(inexp)` with respect to `inexp`.
    pub fn unary_factor(op: Uop, inexp: &Rc<Expr>) -> (r: Rc<Expr>)
        ensures
            *r == unary_factor(op, **inexp),
    {
        match op {
            Uop::Sin => Expr::mk_unop(Uop::Cos, share(inexp)),
            Uop::Cos => Expr::mk_unop(Uop::Neg, Expr::mk_unop(Uop::Sin, share(inexp))),
            Uop::Tan => {
                let deno = Expr::mk_binop(
                    Bop::Pow,
                    Expr::mk_unop(Uop::Cos, share(inexp)),
                    Expr::mk_num(2),
                );
                Expr::mk_binop(Bop::Div, Expr::mk_num(1), deno)
            },
            Uop::Log => Expr::mk_binop(Bop::Div, Expr::mk_num(1), share(inexp)),
            Uop::Exp => Expr::mk_unop(Uop::Exp, share(inexp)),
            Uop::Neg => Expr::mk_num(-1i64),
        }
    }

    /// The derivatives of `exp1 op exp2` with respect to `exp1` and to
    /// `exp2`.
    pub fn binary_factors(op: Bop, exp1: &Rc<Expr>, exp2: &Rc<Expr>) -> (r: (Rc<Expr>, Rc<Expr>))
        ensures
            *r.0 == left_factor(op, **exp1, **exp2),
            *r.1 == right_factor(op, **exp1, **exp2),
    {
        match op {
            Bop::Add => (Expr::mk_num(1), Expr::mk_num(1)),
            Bop::Sub => (Expr::mk_num(1), Expr::mk_num(-1)),
            Bop::Mul => (share(exp2), share(exp1)),
            Bop::Div => {
                let factor_left = Expr::mk_binop(Bop::Div, Expr::mk_num(1), share(exp2));
                let deno = Expr::mk_binop(Bop::Pow, share(exp2), Expr::mk_num(2));
                let factor_right = Expr::mk_unop(
                    Uop::Neg,
                    Expr::mk_binop(Bop::Div, share(exp1), deno),
                );
                (factor_left, factor_right)
            },
            Bop::Pow => {
                let factor1 = Expr::mk_binop(Bop::Div, share(exp2), share(exp1));
                let factor2 = Expr::mk_unop(Uop::Log, share(exp1));
                let this = Expr::mk_binop(Bop::Pow, share(exp1), share(exp2));
                let factor_left = Expr::mk_binop(Bop::Mul, factor1, share(&this));
                let factor_right = Expr::mk_binop(Bop::Mul, factor2, this);
                (factor_left, factor_right)
            },
        }
    }

    /// The derivatives of the expression with respect to each of its
    /// operands: one level of the chain rule, in which no operand is
    /// differentiated itself.
    pub fn diff_comp(&self) -> (r: Vec<Rc<Expr>>)
        ensures
            r@.len() == local_factors(*self).len(),
            forall|i: int| 0 <= i < r@.len() ==> *r@[i] == local_factors(*self)[i],
    {
        let mut res: Vec<Rc<Expr>> = Vec::new();
        match self {
            Expr::UnOp { op, exp } => {
                res.push(Expr::unary_factor(*op, exp));
            },
            Expr::BinOp { op, exp1, exp2 } => {
                let (d1, d2) = Expr::binary_factors(*op, exp1, exp2);
                res.push(d1);
                res.push(d2);
            },
            Expr::Var(_) => {},
            Expr::Num(_) => {},
        }
        res
    }

    /// The derivative with respect to the variable of the given name. A name
    /// that the environment does not know is no variable of the expression,
    /// and the derivative is the constant zero.
    pub fn diff(&self, v: &str, e: &Environment) -> (r: Rc<Expr>)
        ensures
            *r == match lookup(e.names(), v@) {
                Some(id) => derivative(*self, id),
                None => num(0),
            },
    {
        match e.search_var(&String::from_str(v)) {
            Some(v) => self.diff_internal(v, e),
            None => Expr::mk_num(0),
        }
    }

    /// The derivative with respect to a variable.
    pub fn diff_internal(&self, v: Var, e: &Environment) -> (r: Rc<Expr>)
        ensures
            *r == derivative(*self, v@),
        decreases self,
    {
        match self {
            Expr::UnOp { op, exp: inexp } => match op {
                Uop::Cos => {
                    let inner = Expr::mk_binop(
                        Bop::Mul,
                        Expr::mk_unop(Uop::Sin, share(inexp)),
                        inexp.diff_internal(v, e),
                    );
                    Expr::mk_unop(Uop::Neg, inner)
                },
                Uop::Neg => Expr::mk_unop(Uop::Neg, inexp.diff_internal(v, e)),
                _ => Expr::mk_binop(
                    Bop::Mul,
                    Expr::unary_factor(*op, inexp),
                    inexp.diff_internal(v, e),
                ),
            },
            Expr::BinOp { op, exp1, exp2 } => {
                let (factor_left, factor_right) = Expr::binary_factors(*op, exp1, exp2);
                let left = Expr::mk_binop(Bop::Mul, factor_left, exp1.diff_internal(v, e));
                let right = Expr::mk_binop(Bop::Mul, factor_right, exp2.diff_internal(v, e));
                Expr::mk_binop(Bop::Add, left, right)
            },
            Expr::Var(vt) => {
                proof {
                    if vt@ == v@ {
                        Var::lemma_view_injective(*vt, v);
                    }
                }
                if *vt == v {
                    Expr::mk_num(1)
                } else {
                    Expr::mk_num(0)
                }
            },
            Expr::Num(_n) => Expr::mk_num(0),
        }
    }
}

} // verus!
