//! The expression tree: variables, operators and constructors.
use crate::rational::Rational;
use std::rc::Rc;
use vstd::prelude::*;

verus! {

/// A variable, named by the dense zero-based number it got when its name was
/// first seen.
#[derive(Debug, Copy, Clone, Hash, PartialEq, Eq, Structural, PartialOrd, Ord)]
pub struct Var {
    id: usize,
}

impl View for Var {
    type V = nat;

    closed spec fn view(&self) -> nat {
        self.id as nat
    }
}

impl Var {
    /// The variable with the given number.
    pub closed spec fn new_spec(id: usize) -> Var {
        Var { id }
    }

    /// Two variables with the same number are the same variable.
    pub proof fn lemma_view_injective(a: Var, b: Var)
        requires
            a@ == b@,
        ensures
            a == b,
    {
    }

    pub fn new(id: usize) -> (v: Var)
        ensures
            v@ == id,
            v == Var::new_spec(id),
    {
        Var { id }
    }

    pub fn id(&self) -> (id: usize)
        ensures
            id == self@,
    {
        self.id
    }
}

/// The binary operators.
#[derive(Debug, Copy, Clone, Hash, PartialEq, Eq, Structural, PartialOrd, Ord)]
pub enum Bop {
    Add,
    Sub,
    Mul,
    Div,
    Pow,
}

/// The unary operators.
#[derive(Debug, Copy, Clone, Hash, PartialEq, Eq, Structural, PartialOrd, Ord)]
pub enum Uop {
    Sin,
    Cos,
    Tan,
    Log,
    Exp,
    Neg,
}

/// An algebraic expression. Two expressions are equal when they have the
/// same shape, operators, variables and constants.
#[derive(Debug, Hash)]
#[allow(inconsistent_fields)]
pub enum Expr {
    UnOp { op: Uop, exp: Rc<Expr> },
    BinOp { op: Bop, exp1: Rc<Expr>, exp2: Rc<Expr> },
    Var(Var),
    Num(Rational),
}

/// Calls `Rc::clone`, which hands out another pointer to the same value.
#[verifier::external_body]
pub(crate) fn share(e: &Rc<Expr>) -> (r: Rc<Expr>)
    ensures
        r == *e,
{
    Rc::clone(e)
}

impl Clone for Expr {
    fn clone(&self) -> (r: Expr)
        ensures
            r == *self,
    {
        match self {
            Expr::UnOp { op, exp } => Expr::UnOp { op: *op, exp: share(exp) },
            Expr::BinOp { op, exp1, exp2 } => Expr::BinOp {
                op: *op,
                exp1: share(exp1),
                exp2: share(exp2),
            },
            Expr::Var(v) => Expr::Var(*v),
            Expr::Num(n) => Expr::Num(*n),
        }
    }
}

impl PartialEq for Expr {
    fn eq(&self, other: &Expr) -> (b: bool) {
        self.same(other)
    }
}

impl Eq for Expr {

}

impl vstd::std_specs::cmp::PartialEqSpecImpl for Expr {
    open spec fn obeys_eq_spec() -> bool {
        true
    }

    open spec fn eq_spec(&self, other: &Expr) -> bool {
        *self == *other
    }
}

/// The expression behind a shared pointer.
pub open spec fn pointee(p: &Rc<Expr>) -> Expr {
    **p
}

/// The constant `n`.
pub open spec fn num(n: i64) -> Expr {
    Expr::Num(Rational::integer(n))
}

/// The expression `op(exp)`.
pub open spec fn unop(op: Uop, exp: Expr) -> Expr {
    Expr::UnOp { op, exp: Rc::new(exp) }
}

/// The expression `exp1 op exp2`.
pub open spec fn binop(op: Bop, exp1: Expr, exp2: Expr) -> Expr {
    Expr::BinOp { op, exp1: Rc::new(exp1), exp2: Rc::new(exp2) }
}

impl Expr {
    /// The operand of a unary operator, or the left operand of a binary one.
    pub open spec fn operand(self) -> Expr {
        match self {
            Expr::UnOp { exp, .. } => *exp,
            Expr::BinOp { exp1, .. } => *exp1,
            _ => self,
        }
    }

    /// The right operand of a binary operator.
    pub open spec fn operand2(self) -> Expr {
        match self {
            Expr::BinOp { exp2, .. } => *exp2,
            _ => self,
        }
    }

    /// The number of nodes of the tree.
    pub open spec fn size(self) -> nat
        decreases self,
    {
        match self {
            Expr::UnOp { exp, .. } => 1 + exp.size(),
            Expr::BinOp { exp1, exp2, .. } => 1 + exp1.size() + exp2.size(),
            Expr::Var(_) => 1,
            Expr::Num(_) => 1,
        }
    }

    /// Whether two expressions are the same tree.
    pub fn same(&self, other: &Expr) -> (b: bool)
        ensures
            b == (*self == *other),
        decreases self,
    {
        match (self, other) {
            (Expr::UnOp { op: o1, exp: e1 }, Expr::UnOp { op: o2, exp: e2 }) => {
                *o1 == *o2 && e1.same(e2)
            },
            (
                Expr::BinOp { op: o1, exp1: l1, exp2: r1 },
                Expr::BinOp { op: o2, exp1: l2, exp2: r2 },
            ) => *o1 == *o2 && l1.same(l2) && r1.same(r2),
            (Expr::Var(v1), Expr::Var(v2)) => *v1 == *v2,
            (Expr::Num(n1), Expr::Num(n2)) => *n1 == *n2,
            _ => false,
        }
    }
}

} // verus!
