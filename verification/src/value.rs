//! What an expression means: its value as a real number.
use crate::expr::{binop, num, unop, Bop, Expr, Uop};
use crate::rational::{
    is_difference, is_product, is_quotient, is_sum, lowest_terms, Rational,
};
use vstd::prelude::*;

verus! {

/// The elementary functions, as functions on the real numbers.
pub struct Functions {
    pub sin: spec_fn(real) -> real,
    pub cos: spec_fn(real) -> real,
    pub tan: spec_fn(real) -> real,
    pub log: spec_fn(real) -> real,
    pub exp: spec_fn(real) -> real,
    pub pow: spec_fn(real, real) -> real,
}

/// What the simplification rules take for granted of the elementary
/// functions: their values at zero and one, and the powers with the
/// exponents and bases zero, one and two.
pub open spec fn lawful(f: Functions) -> bool {
    &&& (f.sin)(0real) == 0real
    &&& (f.cos)(0real) == 1real
    &&& (f.tan)(0real) == 0real
    &&& (f.log)(1real) == 0real
    &&& (f.exp)(0real) == 1real
    &&& forall|x: real| #[trigger] (f.pow)(x, 1real) == x
    &&& forall|x: real| #[trigger] (f.pow)(x, 2real) == x * x
    &&& forall|x: real| x != 0real ==> #[trigger] (f.pow)(x, 0real) == 1real
    &&& forall|y: real| #[trigger] (f.pow)(1real, y) == 1real
    &&& forall|y: real| y > 0real ==> #[trigger] (f.pow)(0real, y) == 0real
}

/// The number that a fraction stands for.
pub open spec fn ratio(v: (int, int)) -> real {
    v.0 as real / v.1 as real
}

/// The value of an expression where the functions are `f` and the variable
/// of number `i` has the value `at(i)`.
pub open spec fn value(e: Expr, f: Functions, at: spec_fn(nat) -> real) -> real
    decreases e,
{
    match e {
        Expr::UnOp { op, exp } => {
            let u = value(*exp, f, at);
            match op {
                Uop::Sin => (f.sin)(u),
                Uop::Cos => (f.cos)(u),
                Uop::Tan => (f.tan)(u),
                Uop::Log => (f.log)(u),
                Uop::Exp => (f.exp)(u),
                Uop::Neg => -u,
            }
        },
        Expr::BinOp { op, exp1, exp2 } => {
            let a = value(*exp1, f, at);
            let b = value(*exp2, f, at);
            match op {
                Bop::Add => a + b,
                Bop::Sub => a - b,
                Bop::Mul => a * b,
                Bop::Div => a / b,
                Bop::Pow => (f.pow)(a, b),
            }
        },
        Expr::Var(v) => at(v@),
        Expr::Num(n) => ratio(n@),
    }
}

/// Whether the expression has a value: no divisor in it is zero, and no
/// power in it has the base zero with an exponent that is not positive.
pub open spec fn defined(e: Expr, f: Functions, at: spec_fn(nat) -> real) -> bool
    decreases e,
{
    match e {
        Expr::UnOp { exp, .. } => defined(*exp, f, at),
        Expr::BinOp { op, exp1, exp2 } => {
            &&& defined(*exp1, f, at)
            &&& defined(*exp2, f, at)
            &&& op == Bop::Div ==> value(*exp2, f, at) != 0real
            &&& op == Bop::Pow ==> !(value(*exp1, f, at) == 0real && value(*exp2, f, at) <= 0real)
        },
        _ => true,
    }
}

/// Whether every constant of the expression is in lowest terms with a
/// positive denominator.
pub open spec fn proper(e: Expr) -> bool
    decreases e,
{
    match e {
        Expr::UnOp { exp, .. } => proper(*exp),
        Expr::BinOp { exp1, exp2, .. } => proper(*exp1) && proper(*exp2),
        Expr::Var(_) => true,
        Expr::Num(n) => lowest_terms(n@.0, n@.1),
    }
}

/// Whether `r` has the value of `e` wherever `e` has a value.
pub open spec fn same_value(e: Expr, r: Expr) -> bool {
    forall|f: Functions, at: spec_fn(nat) -> real|
        lawful(f) && #[trigger] defined(e, f, at) ==> defined(r, f, at) && value(r, f, at) == value(
            e,
            f,
            at,
        )
}

/// The whole number `n` as a constant is proper and stands for `n`.
pub proof fn lemma_num(n: i64)
    ensures
        proper(num(n)),
        forall|f: Functions, at: spec_fn(nat) -> real| #[trigger]
            value(num(n), f, at) == n as real,
        forall|f: Functions, at: spec_fn(nat) -> real| #[trigger] defined(num(n), f, at),
{
    Rational::lemma_integer_view(n);
    assert(lowest_terms(n as int, 1)) by {
        assert forall|k: int| k > 1 implies !(#[trigger] (n as int % k) == 0 && 1int % k == 0) by {
            assert(1int % k == 1) by (nonlinear_arith)
                requires
                    k > 1,
            ;
        }
    }
    assert(n as real / 1real == n as real);
}

/// A fraction that is the sum, difference, product or quotient of two
/// fractions, in whole numbers, stands for the sum, difference, product or
/// quotient of the numbers that they stand for.
pub proof fn lemma_ratio(a: (int, int), b: (int, int), c: (int, int))
    requires
        a.1 > 0,
        b.1 > 0,
        c.1 > 0,
    ensures
        is_sum(a, b, c) ==> ratio(c) == ratio(a) + ratio(b),
        is_difference(a, b, c) ==> ratio(c) == ratio(a) - ratio(b),
        is_product(a, b, c) ==> ratio(c) == ratio(a) * ratio(b),
        is_quotient(a, b, c) && b.0 != 0 ==> ratio(c) == ratio(a) / ratio(b),
        a.0 == 0 <==> ratio(a) == 0real,
        a.0 == a.1 ==> ratio(a) == 1real,
        a.0 == -a.1 ==> ratio(a) == -1real,
{
    let an = a.0 as real;
    let ad = a.1 as real;
    let bn = b.0 as real;
    let bd = b.1 as real;
    let cn = c.0 as real;
    let cd = c.1 as real;
    assert((c.0 * (a.1 * b.1)) as real == cn * (ad * bd)) by (nonlinear_arith)
        requires
            cn == c.0 as real,
            ad == a.1 as real,
            bd == b.1 as real,
    ;
    assert((c.0 * (a.1 * b.0)) as real == cn * (ad * bn)) by (nonlinear_arith)
        requires
            cn == c.0 as real,
            ad == a.1 as real,
            bn == b.0 as real,
    ;
    assert(((a.0 * b.1 + b.0 * a.1) * c.1) as real == (an * bd + bn * ad) * cd)
        by (nonlinear_arith)
        requires
            an == a.0 as real,
            ad == a.1 as real,
            bn == b.0 as real,
            bd == b.1 as real,
            cd == c.1 as real,
    ;
    assert(((a.0 * b.1 - b.0 * a.1) * c.1) as real == (an * bd - bn * ad) * cd)
        by (nonlinear_arith)
        requires
            an == a.0 as real,
            ad == a.1 as real,
            bn == b.0 as real,
            bd == b.1 as real,
            cd == c.1 as real,
    ;
    assert(((a.0 * b.0) * c.1) as real == (an * bn) * cd) by (nonlinear_arith)
        requires
            an == a.0 as real,
            bn == b.0 as real,
            cd == c.1 as real,
    ;
    assert(((a.0 * b.1) * c.1) as real == (an * bd) * cd) by (nonlinear_arith)
        requires
            an == a.0 as real,
            bd == b.1 as real,
            cd == c.1 as real,
    ;
    if is_sum(a, b, c) {
        assert(cn / cd == an / ad + bn / bd) by (nonlinear_arith)
            requires
                cn * (ad * bd) == (an * bd + bn * ad) * cd,
                ad > 0real,
                bd > 0real,
                cd > 0real,
        ;
    }
    if is_difference(a, b, c) {
        assert(cn / cd == an / ad - bn / bd) by (nonlinear_arith)
            requires
                cn * (ad * bd) == (an * bd - bn * ad) * cd,
                ad > 0real,
                bd > 0real,
                cd > 0real,
        ;
    }
    if is_product(a, b, c) {
        assert(cn / cd == (an / ad) * (bn / bd)) by (nonlinear_arith)
            requires
                cn * (ad * bd) == (an * bn) * cd,
                ad > 0real,
                bd > 0real,
                cd > 0real,
        ;
    }
    if is_quotient(a, b, c) && b.0 != 0 {
        assert(cn / cd == (an / ad) / (bn / bd)) by (nonlinear_arith)
            requires
                cn * (ad * bn) == (an * bd) * cd,
                ad > 0real,
                bd > 0real,
                cd > 0real,
                bn != 0real,
        ;
    }
    assert(a.0 == 0 <==> an / ad == 0real) by (nonlinear_arith)
        requires
            an == a.0 as real,
            ad > 0real,
    ;
    assert(an == ad ==> an / ad == 1real) by (nonlinear_arith)
        requires
            ad > 0real,
    ;
    assert(an == -ad ==> an / ad == -1real) by (nonlinear_arith)
        requires
            ad > 0real,
    ;
}

} // verus!
