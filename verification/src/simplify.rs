//! One bottom-up pass of algebraic simplification.
use crate::env::Environment;
use crate::error::Error;
use crate::expr::{binop, num, pointee, share, unop, Bop, Expr, Uop};
use crate::rational::{
    checked_add_result, checked_div_result, checked_mul_result, checked_sub_result, is_difference,
    is_product, is_quotient, is_sum, lowest_terms, ratio_checked_add, ratio_checked_div,
    ratio_checked_mul, ratio_checked_sub, ratio_from_integer, Rational,
};
use crate::value::{
    defined, lawful, lemma_num, lemma_ratio, proper, ratio, same_value, value, Functions,
};
use std::rc::Rc;
use vstd::prelude::*;

verus! {

/// Whether the expression is a constant.
pub open spec fn is_const(e: Expr) -> bool {
    e is Num
}

/// Whether the expression is the constant zero.
pub open spec fn is_zero(e: Expr) -> bool {
    e matches Expr::Num(n) && n@.0 == 0
}

/// Whether the expression is the constant one.
pub open spec fn is_one(e: Expr) -> bool {
    e matches Expr::Num(n) && n@ == (1int, 1int)
}

/// Whether the expression is the constant minus one.
pub open spec fn is_minus_one(e: Expr) -> bool {
    e matches Expr::Num(n) && n@ == (-1int, 1int)
}

/// The constant that an optional fraction stands for, or the overflow that
/// its absence reports.
pub open spec fn folded(c: Option<(int, int)>) -> Result<Expr, Error> {
    match c {
        Some(v) => Ok(Expr::Num(Rational::from_view(v))),
        None => Err(Error::Overflow),
    }
}

/// The constant `a op b`, for the four operators that have one. Zero
/// divided by a constant that is not zero is zero. A power of two constants
/// is irrational in general and has no constant.
pub open spec fn fold(op: Bop, a: Rational, b: Rational) -> Result<Expr, Error>
    recommends
        op != Bop::Pow,
{
    match op {
        Bop::Add => folded(checked_add_result(a@.0, a@.1, b@.0, b@.1)),
        Bop::Sub => folded(checked_sub_result(a@.0, a@.1, b@.0, b@.1)),
        Bop::Mul => folded(checked_mul_result(a@.0, a@.1, b@.0, b@.1)),
        Bop::Div => if b@.0 == 0 {
            Err(Error::DivisionByZero)
        } else if a@.0 == 0 {
            Ok(num(0))
        } else {
            folded(checked_div_result(a@.0, a@.1, b@.0, b@.1))
        },
        Bop::Pow => Ok(binop(Bop::Pow, Expr::Num(a), Expr::Num(b))),
    }
}

/// Whether `c` is the exact value of `a op b`.
pub open spec fn is_value_of(op: Bop, a: (int, int), b: (int, int), c: (int, int)) -> bool {
    match op {
        Bop::Add => is_sum(a, b, c),
        Bop::Sub => is_difference(a, b, c),
        Bop::Mul => is_product(a, b, c),
        Bop::Div => is_quotient(a, b, c),
        Bop::Pow => false,
    }
}

/// What a unary operator on an already reduced operand reduces to.
pub open spec fn reduce_unop(op: Uop, u: Expr) -> Result<Expr, Error> {
    match op {
        Uop::Sin => Ok(if is_zero(u) { num(0) } else { unop(Uop::Sin, u) }),
        Uop::Cos => Ok(if is_zero(u) { num(1) } else { unop(Uop::Cos, u) }),
        Uop::Tan => Ok(if is_zero(u) { num(0) } else { unop(Uop::Tan, u) }),
        Uop::Log => Ok(if is_one(u) { num(0) } else { unop(Uop::Log, u) }),
        Uop::Exp => Ok(if is_zero(u) { num(1) } else { unop(Uop::Exp, u) }),
        Uop::Neg => match u {
            Expr::Num(n) => if n@.0 == i64::MIN {
                Err(Error::Overflow)
            } else {
                Ok(Expr::Num(Rational::from_view((-n@.0, n@.1))))
            },
            _ => Ok(unop(Uop::Neg, u)),
        },
    }
}

/// What a binary operator on two already reduced operands reduces to. The
/// rules are tried in the order written; the first that applies decides.
/// Two constants fold before a factor or divisor of one or minus one is
/// looked for, so that no rule writes the negation of a constant.
pub open spec fn reduce_binop(op: Bop, l: Expr, r: Expr) -> Result<Expr, Error> {
    match op {
        Bop::Add => if is_zero(l) {
            Ok(r)
        } else if is_zero(r) {
            Ok(l)
        } else if l is Num && r is Num {
            fold(Bop::Add, l->Num_0, r->Num_0)
        } else if l == r {
            Ok(binop(Bop::Mul, num(2), l))
        } else {
            Ok(binop(Bop::Add, l, r))
        },
        Bop::Sub => if is_zero(r) {
            Ok(l)
        } else if l is Num && r is Num {
            fold(Bop::Sub, l->Num_0, r->Num_0)
        } else if l == r {
            Ok(num(0))
        } else {
            Ok(binop(Bop::Sub, l, r))
        },
        Bop::Mul => if is_zero(l) || is_zero(r) {
            Ok(num(0))
        } else if l is Num && r is Num {
            fold(Bop::Mul, l->Num_0, r->Num_0)
        } else if is_one(l) {
            Ok(r)
        } else if is_minus_one(l) {
            Ok(unop(Uop::Neg, r))
        } else if is_one(r) {
            Ok(l)
        } else if is_minus_one(r) {
            Ok(unop(Uop::Neg, l))
        } else if l == r {
            Ok(binop(Bop::Pow, l, num(2)))
        } else {
            Ok(binop(Bop::Mul, l, r))
        },
        Bop::Div => if is_zero(r) {
            Err(Error::DivisionByZero)
        } else if l is Num && r is Num {
            fold(Bop::Div, l->Num_0, r->Num_0)
        } else if is_one(r) {
            Ok(l)
        } else if is_minus_one(r) {
            Ok(unop(Uop::Neg, l))
        } else if l == r {
            Ok(num(1))
        } else {
            Ok(binop(Bop::Div, l, r))
        },
        Bop::Pow => if is_zero(l) {
            Ok(num(0))
        } else if is_zero(r) {
            Ok(num(1))
        } else if is_one(l) {
            Ok(num(1))
        } else if is_one(r) {
            Ok(l)
        } else {
            Ok(binop(Bop::Pow, l, r))
        },
    }
}

/// The simplified expression: the operands are reduced first, the left one
/// before the right one, then one rule is applied at the node itself. What a
/// rule produces is not reduced again.
pub open spec fn reduced(e: Expr) -> Result<Expr, Error>
    decreases e,
{
    match e {
        Expr::UnOp { op, exp } => match reduced(*exp) {
            Ok(u) => reduce_unop(op, u),
            Err(err) => Err(err),
        },
        Expr::BinOp { op, exp1, exp2 } => match reduced(*exp1) {
            Ok(l) => match reduced(*exp2) {
                Ok(r) => reduce_binop(op, l, r),
                Err(err) => Err(err),
            },
            Err(err) => Err(err),
        },
        Expr::Var(_) => Ok(e),
        Expr::Num(_) => Ok(e),
    }
}

/// The expression behind a shared result.
pub open spec fn unshared(r: Result<Rc<Expr>, Error>) -> Result<Expr, Error> {
    match r {
        Ok(p) => Ok(*p),
        Err(err) => Err(err),
    }
}

/// The constant that an optional fraction stands for, as an expression,
/// or the overflow that its absence reports.
pub fn wrap_folded(c: Option<Rational>) -> (r: Result<Rc<Expr>, Error>)
    ensures
        unshared(r) == folded(crate::rational::option_view(c)),
        r matches Ok(p) ==> c matches Some(v) && *p == Expr::Num(v),
{
    match c {
        Some(v) => {
            proof {
                Rational::lemma_from_view(v);
            }
            Ok(Rc::new(Expr::Num(v)))
        },
        None => Err(Error::Overflow),
    }
}

impl Expr {
    /// The expression `op(one)`.
    pub(crate) fn mk_unop(op: Uop, one: Rc<Expr>) -> (r: Rc<Expr>)
        ensures
            *r == unop(op, *one),
    {
        Rc::new(Expr::UnOp { op, exp: one })
    }

    /// The expression `one op other`.
    pub(crate) fn mk_binop(op: Bop, one: Rc<Expr>, other: Rc<Expr>) -> (r: Rc<Expr>)
        ensures
            *r == binop(op, *one, *other),
    {
        Rc::new(Expr::BinOp { op, exp1: one, exp2: other })
    }

    /// The constant `n`.
    pub(crate) fn mk_num(n: i64) -> (r: Rc<Expr>)
        ensures
            *r == num(n),
    {
        let c = ratio_from_integer(n);
        proof {
            Rational::lemma_integer_view(n);
            Rational::lemma_view_injective(c, Rational::integer(n));
        }
        Rc::new(Expr::Num(c))
    }

    /// The constant that two constants fold to under an operator other than
    /// the power. Where the result is a constant, it is the exact value in
    /// lowest terms.
    pub fn new_num_from_op(left: Rc<Expr>, right: Rc<Expr>, op: Bop) -> (r: Result<Rc<Expr>, Error>)
        requires
            *left is Num,
            *right is Num,
            op != Bop::Pow,
        ensures
            unshared(r) == fold(op, left->Num_0, right->Num_0),
            r matches Ok(p) ==> {
                &&& *p matches Expr::Num(c)
                &&& lowest_terms(c@.0, c@.1)
                &&& is_value_of(op, left->Num_0@, right->Num_0@, c@)
            },
    {
        match (&*left, &*right) {
            (Expr::Num(n), Expr::Num(m)) => {
                match op {
                    Bop::Add => wrap_folded(ratio_checked_add(*n, *m)),
                    Bop::Sub => wrap_folded(ratio_checked_sub(*n, *m)),
                    Bop::Mul => wrap_folded(ratio_checked_mul(*n, *m)),
                    Bop::Div => {
                        if m.is_zero() {
                            Err(Error::DivisionByZero)
                        } else if n.is_zero() {
                            proof {
                                lemma_num(0);
                                Rational::lemma_integer_view(0);
                                let a = n@;
                                let b = m@;
                                assert(0 * (a.1 * b.0) == (a.0 * b.1) * 1) by (nonlinear_arith)
                                    requires
                                        a.0 == 0,
                                ;
                            }
                            Ok(Expr::mk_num(0))
                        } else {
                            wrap_folded(ratio_checked_div(*n, *m))
                        }
                    },
                    Bop::Pow => Ok(Expr::mk_binop(Bop::Pow, left, right)),
                }
            },
            _ => Ok(left),
        }
    }

    /// Whether the expression is a constant.
    pub fn is_const(&self) -> (b: bool)
        ensures
            b == is_const(*self),
    {
        match self {
            Expr::Num(_) => true,
            _ => false,
        }
    }

    /// Whether the expression is the constant zero.
    pub fn is_zero(&self) -> (b: bool)
        ensures
            b == is_zero(*self),
    {
        match self {
            Expr::Num(n) => n.is_zero(),
            _ => false,
        }
    }

    /// Whether the expression is the constant one.
    pub fn is_one(&self) -> (b: bool)
        ensures
            b == is_one(*self),
    {
        match self {
            Expr::Num(n) => n.is_one(),
            _ => false,
        }
    }

    /// Whether the expression is the constant minus one.
    pub fn is_minus_one(&self) -> (b: bool)
        ensures
            b == is_minus_one(*self),
    {
        match self {
            Expr::Num(n) => n.is_minus_one(),
            _ => false,
        }
    }

    /// Applies the rule of a unary operator to an already reduced operand.
    pub fn reduce_unop(op: Uop, inexp: Rc<Expr>) -> (r: Result<Rc<Expr>, Error>)
        ensures
            unshared(r) == reduce_unop(op, *inexp),
            proper(*inexp) ==> (r matches Ok(x) ==> proper(*x) && same_value(
                unop(op, *inexp),
                *x,
            )),
    {
        proof {
            let u = pointee(&inexp);
            if proper(u) && !(op == Uop::Neg && u is Num) {
                lemma_unop_rule_sound(op, u);
            }
        }
        match op {
            Uop::Sin => if inexp.is_zero() {
                Ok(Expr::mk_num(0))
            } else {
                Ok(Expr::mk_unop(Uop::Sin, inexp))
            },
            Uop::Cos => if inexp.is_zero() {
                Ok(Expr::mk_num(1))
            } else {
                Ok(Expr::mk_unop(Uop::Cos, inexp))
            },
            Uop::Tan => if inexp.is_zero() {
                Ok(Expr::mk_num(0))
            } else {
                Ok(Expr::mk_unop(Uop::Tan, inexp))
            },
            Uop::Log => if inexp.is_one() {
                Ok(Expr::mk_num(0))
            } else {
                Ok(Expr::mk_unop(Uop::Log, inexp))
            },
            Uop::Exp => if inexp.is_zero() {
                Ok(Expr::mk_num(1))
            } else {
                Ok(Expr::mk_unop(Uop::Exp, inexp))
            },
            Uop::Neg => match &*inexp {
                Expr::Num(n) => match n.checked_neg() {
                    Some(m) => {
                        proof {
                            use_type_invariant(&m);
                            Rational::lemma_well_formed(m);
                            Rational::lemma_view_range(*n, (0, 0));
                            if lowest_terms(n@.0, n@.1) {
                                lemma_negated_constant(*n, m);
                            }
                        }
                        Ok(Rc::new(Expr::Num(m)))
                    },
                    None => Err(Error::Overflow),
                },
                _ => Ok(Expr::mk_unop(Uop::Neg, inexp)),
            },
        }
    }

    /// Applies the rules of a binary operator to two already reduced
    /// operands.
    pub fn reduce_binop(op: Bop, left: Rc<Expr>, right: Rc<Expr>) -> (r: Result<Rc<Expr>, Error>)
        ensures
            unshared(r) == reduce_binop(op, *left, *right),
            proper(*left) && proper(*right) ==> (r matches Ok(x) ==> proper(*x) && same_value(
                binop(op, *left, *right),
                *x,
            )),
    {
        let ghost l = pointee(&left);
        let ghost r = pointee(&right);
        proof {
            if proper(l) && proper(r) && !fold_decides(op, l, r) {
                match op {
                    Bop::Add => lemma_additive_rule_sound(op, l, r),
                    Bop::Sub => lemma_additive_rule_sound(op, l, r),
                    Bop::Mul => lemma_product_rule_sound(l, r),
                    Bop::Div => {
                        if reduce_binop(op, l, r) is Ok {
                            lemma_quotient_rule_sound(l, r);
                        }
                    },
                    Bop::Pow => lemma_power_rule_sound(l, r),
                }
            }
        }
        let folded = match op {
            Bop::Add => {
                if left.is_zero() {
                    Ok(right)
                } else if right.is_zero() {
                    Ok(left)
                } else if left.is_const() && right.is_const() {
                    Expr::new_num_from_op(left, right, Bop::Add)
                } else if left.same(&right) {
                    Ok(Expr::mk_binop(Bop::Mul, Expr::mk_num(2), left))
                } else {
                    Ok(Expr::mk_binop(Bop::Add, left, right))
                }
            },
            Bop::Sub => {
                if right.is_zero() {
                    Ok(left)
                } else if left.is_const() && right.is_const() {
                    Expr::new_num_from_op(left, right, Bop::Sub)
                } else if left.same(&right) {
                    Ok(Expr::mk_num(0))
                } else {
                    Ok(Expr::mk_binop(Bop::Sub, left, right))
                }
            },
            Bop::Mul => {
                if left.is_zero() || right.is_zero() {
                    Ok(Expr::mk_num(0))
                } else if left.is_const() && right.is_const() {
                    Expr::new_num_from_op(left, right, Bop::Mul)
                } else if left.is_one() {
                    Ok(right)
                } else if left.is_minus_one() {
                    Ok(Expr::mk_unop(Uop::Neg, right))
                } else if right.is_one() {
                    Ok(left)
                } else if right.is_minus_one() {
                    Ok(Expr::mk_unop(Uop::Neg, left))
                } else if left.same(&right) {
                    Ok(Expr::mk_binop(Bop::Pow, left, Expr::mk_num(2)))
                } else {
                    Ok(Expr::mk_binop(Bop::Mul, left, right))
                }
            },
            Bop::Div => {
                if right.is_zero() {
                    Err(Error::DivisionByZero)
                } else if left.is_const() && right.is_const() {
                    Expr::new_num_from_op(left, right, Bop::Div)
                } else if right.is_one() {
                    Ok(left)
                } else if right.is_minus_one() {
                    Ok(Expr::mk_unop(Uop::Neg, left))
                } else if left.same(&right) {
                    Ok(Expr::mk_num(1))
                } else {
                    Ok(Expr::mk_binop(Bop::Div, left, right))
                }
            },
            Bop::Pow => {
                if left.is_zero() {
                    Ok(Expr::mk_num(0))
                } else if right.is_zero() {
                    Ok(Expr::mk_num(1))
                } else if left.is_one() {
                    Ok(Expr::mk_num(1))
                } else if right.is_one() {
                    Ok(left)
                } else {
                    Ok(Expr::mk_binop(Bop::Pow, left, right))
                }
            },
        };
        proof {
            if proper(l) && proper(r) && fold_decides(op, l, r) {
                if folded is Ok {
                    lemma_fold_sound(op, l->Num_0, r->Num_0, unshared(folded)->Ok_0->Num_0);
                }
            }
        }
        folded
    }

    /// Simplifies the expression in one bottom-up pass. The result has the
    /// value of the expression wherever the expression has a value.
    pub fn reduce(&self, e: &Environment) -> (r: Result<Rc<Expr>, Error>)
        ensures
            unshared(r) == reduced(*self),
            r matches Ok(x) ==> proper(*self) && proper(*x) && same_value(*self, *x),
    {
        self.reduce_internal(e)
    }

    fn reduce_internal(&self, e: &Environment) -> (r: Result<Rc<Expr>, Error>)
        ensures
            unshared(r) == reduced(*self),
            r matches Ok(x) ==> proper(*self) && proper(*x) && same_value(*self, *x),
        decreases self,
    {
        match self {
            Expr::UnOp { op, exp: inexp } => {
                match inexp.reduce_internal(e) {
                    Ok(u) => {
                        let ghost before = pointee(inexp);
                        let ghost after = pointee(&u);
                        let r = Expr::reduce_unop(*op, u);
                        proof {
                            if r is Ok {
                                lemma_same_value_unop(*op, before, after);
                                lemma_same_value_trans(
                                    unop(*op, before),
                                    unop(*op, after),
                                    unshared(r)->Ok_0,
                                );
                            }
                        }
                        r
                    },
                    Err(err) => Err(err),
                }
            },
            Expr::BinOp { op, exp1, exp2 } => {
                match exp1.reduce_internal(e) {
                    Ok(left) => match exp2.reduce_internal(e) {
                        Ok(right) => {
                            let ghost a = pointee(exp1);
                            let ghost b = pointee(exp2);
                            let ghost c = pointee(&left);
                            let ghost d = pointee(&right);
                            let r = Expr::reduce_binop(*op, left, right);
                            proof {
                                if r is Ok {
                                    lemma_same_value_binop(*op, a, b, c, d);
                                    lemma_same_value_trans(
                                        binop(*op, a, b),
                                        binop(*op, c, d),
                                        unshared(r)->Ok_0,
                                    );
                                }
                            }
                            r
                        },
                        Err(err) => Err(err),
                    },
                    Err(err) => Err(err),
                }
            },
            Expr::Var(vt) => Ok(Rc::new(Expr::Var(*vt))),
            Expr::Num(n) => {
                proof {
                    use_type_invariant(n);
                    Rational::lemma_well_formed(*n);
                }
                Ok(Rc::new(Expr::Num(*n)))
            },
        }
    }
}

/// What the constants that the rules write are and are not.
pub proof fn lemma_small_constants()
    ensures
        is_zero(num(0)),
        is_one(num(1)),
        !is_zero(num(1)),
        !is_zero(num(2)),
        !is_one(num(0)),
        !is_one(num(2)),
        !is_minus_one(num(0)),
        !is_minus_one(num(1)),
        !is_minus_one(num(2)),
{
    Rational::lemma_integer_view(0);
    Rational::lemma_integer_view(1);
    Rational::lemma_integer_view(2);
}

/// What a unary rule makes of an operand that reduces to itself reduces to
/// itself.
pub proof fn lemma_unop_stable(op: Uop, u: Expr)
    requires
        reduced(u) == Ok::<Expr, Error>(u),
        reduce_unop(op, u) is Ok,
    ensures
        reduced(reduce_unop(op, u)->Ok_0) == reduce_unop(op, u),
{
    lemma_small_constants();
    let r = reduce_unop(op, u)->Ok_0;
    if r == unop(op, u) {
        assert(reduced(r) == reduce_unop(op, u));
    } else {
        assert(r is Num);
    }
}

/// What a binary rule makes of two operands that reduce to themselves
/// reduces to itself.
pub proof fn lemma_binop_stable(op: Bop, l: Expr, r: Expr)
    requires
        reduced(l) == Ok::<Expr, Error>(l),
        reduced(r) == Ok::<Expr, Error>(r),
        reduce_binop(op, l, r) is Ok,
    ensures
        reduced(reduce_binop(op, l, r)->Ok_0) == reduce_binop(op, l, r),
{
    lemma_small_constants();
    let x = reduce_binop(op, l, r)->Ok_0;
    if x is Num {
    } else if x == l || x == r {
    } else if x == binop(op, l, r) {
        assert(reduced(x) == reduce_binop(op, l, r));
    } else if x == unop(Uop::Neg, l) {
        assert(!(l is Num));
        assert(reduced(x) == reduce_unop(Uop::Neg, l));
    } else if x == unop(Uop::Neg, r) {
        assert(!(r is Num));
        assert(reduced(x) == reduce_unop(Uop::Neg, r));
    } else if x == binop(Bop::Mul, num(2), l) {
        assert(reduced(num(2)) == Ok::<Expr, Error>(num(2)));
        assert(reduced(x) == reduce_binop(Bop::Mul, num(2), l));
    } else {
        assert(x == binop(Bop::Pow, l, num(2)));
        assert(reduced(num(2)) == Ok::<Expr, Error>(num(2)));
        assert(reduced(x) == reduce_binop(Bop::Pow, l, num(2)));
    }
}

/// Reducing twice gives what reducing once gives: what a pass makes is
/// left as it is by the next.
pub proof fn lemma_reduce_again(e: Expr)
    requires
        reduced(e) is Ok,
    ensures
        reduced(reduced(e)->Ok_0) == reduced(e),
    decreases e,
{
    match e {
        Expr::UnOp { op, .. } => {
            lemma_reduce_again(e.operand());
            lemma_unop_stable(op, reduced(e.operand())->Ok_0);
        },
        Expr::BinOp { op, .. } => {
            lemma_reduce_again(e.operand());
            lemma_reduce_again(e.operand2());
            lemma_binop_stable(op, reduced(e.operand())->Ok_0, reduced(e.operand2())->Ok_0);
        },
        _ => {},
    }
}

/// Whether the rule that folds two constants is the one that decides.
pub open spec fn fold_decides(op: Bop, l: Expr, r: Expr) -> bool {
    &&& l is Num
    &&& r is Num
    &&& match op {
        Bop::Add => !is_zero(l) && !is_zero(r),
        Bop::Sub => !is_zero(r),
        Bop::Mul => !is_zero(l) && !is_zero(r),
        Bop::Div => !is_zero(r),
        Bop::Pow => false,
    }
}

/// The rules of the functions keep the value: what they make of a proper
/// operand is proper and has the value of the function of the operand.
pub proof fn lemma_unop_rule_sound(op: Uop, u: Expr)
    requires
        proper(u),
        !(op == Uop::Neg && u is Num),
    ensures
        reduce_unop(op, u) is Ok,
        proper(reduce_unop(op, u)->Ok_0),
        same_value(unop(op, u), reduce_unop(op, u)->Ok_0),
{
    lemma_num(0);
    lemma_num(1);
    let x = reduce_unop(op, u)->Ok_0;
    assert forall|f: Functions, at: spec_fn(nat) -> real|
        lawful(f) && #[trigger] defined(unop(op, u), f, at) implies defined(x, f, at) && value(
        x,
        f,
        at,
    ) == value(unop(op, u), f, at) by {
        assert(defined(u, f, at));
        if x == unop(op, u) {
        } else {
            lemma_ratio(u->Num_0@, u->Num_0@, u->Num_0@);
            assert(value(u, f, at) == ratio(u->Num_0@));
            if x == num(0) {
                assert(value(x, f, at) == 0real);
            } else {
                assert(x == num(1));
                assert(value(x, f, at) == 1real);
            }
        }
    }
}

/// The rules of the sum and of the difference keep the value.
pub proof fn lemma_additive_rule_sound(op: Bop, l: Expr, r: Expr)
    requires
        op == Bop::Add || op == Bop::Sub,
        proper(l),
        proper(r),
        !fold_decides(op, l, r),
    ensures
        reduce_binop(op, l, r) is Ok,
        proper(reduce_binop(op, l, r)->Ok_0),
        same_value(binop(op, l, r), reduce_binop(op, l, r)->Ok_0),
{
    lemma_num(0);
    lemma_num(2);
    let x = reduce_binop(op, l, r)->Ok_0;
    assert forall|f: Functions, at: spec_fn(nat) -> real|
        lawful(f) && #[trigger] defined(binop(op, l, r), f, at) implies defined(x, f, at) && value(
        x,
        f,
        at,
    ) == value(binop(op, l, r), f, at) by {
        assert(defined(l, f, at));
        assert(defined(r, f, at));
        let a = value(l, f, at);
        let b = value(r, f, at);
        if l is Num {
            lemma_ratio(l->Num_0@, l->Num_0@, l->Num_0@);
            assert(a == ratio(l->Num_0@));
        }
        if r is Num {
            lemma_ratio(r->Num_0@, r->Num_0@, r->Num_0@);
            assert(b == ratio(r->Num_0@));
        }
        if x == binop(op, l, r) {
        } else if op == Bop::Add && is_zero(l) {
            assert(x == r);
        } else if is_zero(r) {
            assert(x == l);
        } else if op == Bop::Add {
            assert(l == r);
            assert(x == binop(Bop::Mul, num(2), l));
            assert(value(num(2), f, at) == 2real);
            assert(value(x, f, at) == value(num(2), f, at) * a);
            assert(2real * a == a + a) by (nonlinear_arith);
            assert(defined(num(2), f, at));
            assert(defined(x, f, at));
        } else {
            assert(l == r);
            assert(x == num(0));
            assert(value(x, f, at) == 0real);
        }
    }
}

/// The rules of the product keep the value.
pub proof fn lemma_product_rule_sound(l: Expr, r: Expr)
    requires
        proper(l),
        proper(r),
        !fold_decides(Bop::Mul, l, r),
    ensures
        reduce_binop(Bop::Mul, l, r) is Ok,
        proper(reduce_binop(Bop::Mul, l, r)->Ok_0),
        same_value(binop(Bop::Mul, l, r), reduce_binop(Bop::Mul, l, r)->Ok_0),
{
    lemma_num(0);
    lemma_num(2);
    let x = reduce_binop(Bop::Mul, l, r)->Ok_0;
    assert forall|f: Functions, at: spec_fn(nat) -> real|
        lawful(f) && #[trigger] defined(binop(Bop::Mul, l, r), f, at) implies defined(x, f, at)
        && value(x, f, at) == value(binop(Bop::Mul, l, r), f, at) by {
        assert(defined(l, f, at));
        assert(defined(r, f, at));
        let a = value(l, f, at);
        let b = value(r, f, at);
        assert(value(binop(Bop::Mul, l, r), f, at) == a * b);
        if l is Num {
            lemma_ratio(l->Num_0@, l->Num_0@, l->Num_0@);
            assert(a == ratio(l->Num_0@));
        }
        if r is Num {
            lemma_ratio(r->Num_0@, r->Num_0@, r->Num_0@);
            assert(b == ratio(r->Num_0@));
        }
        assert(a == 0real || b == 0real ==> a * b == 0real) by (nonlinear_arith);
        assert(a == 1real ==> a * b == b) by (nonlinear_arith);
        assert(b == 1real ==> a * b == a) by (nonlinear_arith);
        assert(a == -1real ==> a * b == -b) by (nonlinear_arith);
        assert(b == -1real ==> a * b == -a) by (nonlinear_arith);
        if is_zero(l) || is_zero(r) {
            assert(x == num(0));
            assert(value(x, f, at) == 0real);
        } else if is_one(l) {
            assert(x == r);
        } else if is_minus_one(l) {
            assert(x == unop(Uop::Neg, r));
            assert(value(x, f, at) == -b);
        } else if is_one(r) {
            assert(x == l);
        } else if is_minus_one(r) {
            assert(x == unop(Uop::Neg, l));
            assert(value(x, f, at) == -a);
        } else if l == r {
            assert(x == binop(Bop::Pow, l, num(2)));
            assert(value(num(2), f, at) == 2real);
            assert(value(x, f, at) == (f.pow)(a, 2real));
            assert(defined(num(2), f, at));
            assert(defined(x, f, at));
        } else {
            assert(x == binop(Bop::Mul, l, r));
        }
    }
}

/// The rules of the quotient keep the value.
pub proof fn lemma_quotient_rule_sound(l: Expr, r: Expr)
    requires
        proper(l),
        proper(r),
        !fold_decides(Bop::Div, l, r),
        reduce_binop(Bop::Div, l, r) is Ok,
    ensures
        proper(reduce_binop(Bop::Div, l, r)->Ok_0),
        same_value(binop(Bop::Div, l, r), reduce_binop(Bop::Div, l, r)->Ok_0),
{
    lemma_num(1);
    let x = reduce_binop(Bop::Div, l, r)->Ok_0;
    assert forall|f: Functions, at: spec_fn(nat) -> real|
        lawful(f) && #[trigger] defined(binop(Bop::Div, l, r), f, at) implies defined(x, f, at)
        && value(x, f, at) == value(binop(Bop::Div, l, r), f, at) by {
        if r is Num {
            lemma_ratio(r->Num_0@, r->Num_0@, r->Num_0@);
        }
        let a = value(l, f, at);
        let b = value(r, f, at);
        assert(b == 1real ==> a / b == a) by (nonlinear_arith);
        assert(b == -1real ==> a / b == -a) by (nonlinear_arith);
        assert(b != 0real ==> b / b == 1real) by (nonlinear_arith);
        if is_one(r) {
            assert(ratio(r->Num_0@) == 1real);
        }
        if is_minus_one(r) {
            assert(ratio(r->Num_0@) == -1real);
        }
    }
}

/// The rules of the power keep the value.
pub proof fn lemma_power_rule_sound(l: Expr, r: Expr)
    requires
        proper(l),
        proper(r),
    ensures
        reduce_binop(Bop::Pow, l, r) is Ok,
        proper(reduce_binop(Bop::Pow, l, r)->Ok_0),
        same_value(binop(Bop::Pow, l, r), reduce_binop(Bop::Pow, l, r)->Ok_0),
{
    lemma_num(0);
    lemma_num(1);
    let x = reduce_binop(Bop::Pow, l, r)->Ok_0;
    assert forall|f: Functions, at: spec_fn(nat) -> real|
        lawful(f) && #[trigger] defined(binop(Bop::Pow, l, r), f, at) implies defined(x, f, at)
        && value(x, f, at) == value(binop(Bop::Pow, l, r), f, at) by {
        assert(defined(l, f, at));
        assert(defined(r, f, at));
        let a = value(l, f, at);
        let b = value(r, f, at);
        assert(value(binop(Bop::Pow, l, r), f, at) == (f.pow)(a, b));
        assert(!(a == 0real && b <= 0real));
        if l is Num {
            lemma_ratio(l->Num_0@, l->Num_0@, l->Num_0@);
            assert(a == ratio(l->Num_0@));
        }
        if r is Num {
            lemma_ratio(r->Num_0@, r->Num_0@, r->Num_0@);
            assert(b == ratio(r->Num_0@));
        }
        if is_zero(l) {
            assert(x == num(0));
            assert(value(x, f, at) == 0real);
            assert((f.pow)(0real, b) == 0real);
        } else if is_zero(r) {
            assert(x == num(1));
            assert(value(x, f, at) == 1real);
            assert((f.pow)(a, 0real) == 1real);
        } else if is_one(l) {
            assert(x == num(1));
            assert(value(x, f, at) == 1real);
            assert((f.pow)(1real, b) == 1real);
        } else if is_one(r) {
            assert(x == l);
            assert((f.pow)(a, 1real) == a);
        } else {
            assert(x == binop(Bop::Pow, l, r));
        }
    }
}

/// A constant that is the exact value of `a op b` has the value of the
/// expression `a op b`.
pub proof fn lemma_fold_sound(op: Bop, a: Rational, b: Rational, c: Rational)
    requires
        lowest_terms(a@.0, a@.1),
        lowest_terms(b@.0, b@.1),
        lowest_terms(c@.0, c@.1),
        is_value_of(op, a@, b@, c@),
        op == Bop::Div ==> b@.0 != 0,
    ensures
        proper(Expr::Num(c)),
        same_value(binop(op, Expr::Num(a), Expr::Num(b)), Expr::Num(c)),
{
    lemma_ratio(a@, b@, c@);
    let e = binop(op, Expr::Num(a), Expr::Num(b));
    assert forall|f: Functions, at: spec_fn(nat) -> real|
        lawful(f) && #[trigger] defined(e, f, at) implies defined(Expr::Num(c), f, at) && value(
        Expr::Num(c),
        f,
        at,
    ) == value(e, f, at) by {
        assert(value(Expr::Num(a), f, at) == ratio(a@));
        assert(value(Expr::Num(b), f, at) == ratio(b@));
        assert(value(Expr::Num(c), f, at) == ratio(c@));
    }
}

/// An expression built from operands that have the values of the operands
/// of another has the value of that other expression.
pub proof fn lemma_same_value_unop(op: Uop, u: Expr, v: Expr)
    requires
        same_value(u, v),
    ensures
        same_value(unop(op, u), unop(op, v)),
{
    assert forall|f: Functions, at: spec_fn(nat) -> real|
        lawful(f) && #[trigger] defined(unop(op, u), f, at) implies defined(unop(op, v), f, at)
        && value(unop(op, v), f, at) == value(unop(op, u), f, at) by {
        assert(defined(u, f, at));
    }
}

/// An expression built from operands that have the values of the operands
/// of another has the value of that other expression.
pub proof fn lemma_same_value_binop(op: Bop, a: Expr, b: Expr, c: Expr, d: Expr)
    requires
        same_value(a, c),
        same_value(b, d),
    ensures
        same_value(binop(op, a, b), binop(op, c, d)),
{
    assert forall|f: Functions, at: spec_fn(nat) -> real|
        lawful(f) && #[trigger] defined(binop(op, a, b), f, at) implies defined(
        binop(op, c, d),
        f,
        at,
    ) && value(binop(op, c, d), f, at) == value(binop(op, a, b), f, at) by {
        assert(defined(a, f, at));
        assert(defined(b, f, at));
    }
}

/// Having the same value carries over from one expression to the next.
pub proof fn lemma_same_value_trans(a: Expr, b: Expr, c: Expr)
    requires
        same_value(a, b),
        same_value(b, c),
    ensures
        same_value(a, c),
{
    assert forall|f: Functions, at: spec_fn(nat) -> real|
        lawful(f) && #[trigger] defined(a, f, at) implies defined(c, f, at) && value(c, f, at)
        == value(a, f, at) by {
        assert(defined(b, f, at));
    }
}

/// The negation of a constant has the value of the negated constant.
pub proof fn lemma_negated_constant(n: Rational, m: Rational)
    requires
        n@.0 > i64::MIN,
        m == Rational::from_view((-n@.0, n@.1)),
        lowest_terms(n@.0, n@.1),
    ensures
        same_value(unop(Uop::Neg, Expr::Num(n)), Expr::Num(m)),
{
    Rational::lemma_view_range(n, (-n@.0, n@.1));
    let an = n@.0 as real;
    let ad = n@.1 as real;
    assert((-n@.0) as real / ad == -(an / ad)) by (nonlinear_arith)
        requires
            an == n@.0 as real,
            ad > 0real,
    ;
    assert forall|f: Functions, at: spec_fn(nat) -> real|
        lawful(f) && #[trigger] defined(unop(Uop::Neg, Expr::Num(n)), f, at) implies defined(
        Expr::Num(m),
        f,
        at,
    ) && value(Expr::Num(m), f, at) == value(unop(Uop::Neg, Expr::Num(n)), f, at) by {
        assert(value(Expr::Num(n), f, at) == ratio(n@));
        assert(value(Expr::Num(m), f, at) == ratio(m@));
    }
}

} // verus!
