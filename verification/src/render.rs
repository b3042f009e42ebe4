//! Infix text for an expression.
use crate::env::Environment;
use crate::expr::{Bop, Expr, Uop};
use crate::rational::{ratio_text, ratio_to_string};
use vstd::prelude::*;
use vstd::string::StringExecFns;

verus! {

/// Whether every variable of the expression has a number below `n`.
pub open spec fn vars_below(e: Expr, n: nat) -> bool
    decreases e,
{
    match e {
        Expr::UnOp { exp, .. } => vars_below(*exp, n),
        Expr::BinOp { exp1, exp2, .. } => vars_below(*exp1, n) && vars_below(*exp2, n),
        Expr::Var(v) => v@ < n,
        Expr::Num(_) => true,
    }
}

/// The sign of a binary operator.
pub open spec fn bop_text(op: Bop) -> Seq<char> {
    match op {
        Bop::Add => seq!['+'],
        Bop::Sub => seq!['-'],
        Bop::Mul => seq!['*'],
        Bop::Div => seq!['/'],
        Bop::Pow => seq!['^'],
    }
}

/// What stands before the operand of a unary operator: the function's name
/// and an opening bracket, or the minus sign.
pub open spec fn uop_prefix(op: Uop) -> Seq<char> {
    match op {
        Uop::Sin => seq!['s', 'i', 'n', '('],
        Uop::Cos => seq!['c', 'o', 's', '('],
        Uop::Tan => seq!['t', 'a', 'n', '('],
        Uop::Log => seq!['l', 'o', 'g', '('],
        Uop::Exp => seq!['e', 'x', 'p', '('],
        Uop::Neg => seq!['-'],
    }
}

/// What stands behind the operand of a unary operator: the closing bracket
/// of a function, nothing for the minus sign.
pub open spec fn uop_suffix(op: Uop) -> Seq<char> {
    match op {
        Uop::Neg => Seq::empty(),
        _ => seq![')'],
    }
}

/// The text of an expression: a function as its name and its operand in
/// brackets, a negation as a minus sign before its operand, a binary
/// operator between its operands without brackets or spaces, a variable as
/// its name, a constant as the text of its fraction.
pub open spec fn rendered(e: Expr, names: Seq<Seq<char>>) -> Seq<char>
    decreases e,
{
    match e {
        Expr::UnOp { op, exp } => uop_prefix(op) + rendered(*exp, names) + uop_suffix(op),
        Expr::BinOp { op, exp1, exp2 } => rendered(*exp1, names) + bop_text(op) + rendered(
            *exp2,
            names,
        ),
        Expr::Var(v) => names[v@ as int],
        Expr::Num(n) => ratio_text(n@.0, n@.1),
    }
}

impl Expr {
    /// The text of the expression, with each variable under its name in the
    /// environment.
    pub fn print(&self, e: &Environment) -> (s: String)
        requires
            vars_below(*self, e.names().len()),
        ensures
            s@ == rendered(*self, e.names()),
    {
        let mut out = String::new();
        self.print_internal(e, &mut out);
        assert(Seq::<char>::empty() + rendered(*self, e.names()) =~= rendered(*self, e.names()));
        out
    }

    fn print_func(&self, name: &str, e: &Environment, out: &mut String)
        requires
            vars_below(*self, e.names().len()),
        ensures
            final(out)@ == old(out)@ + name@ + seq!['('] + rendered(*self, e.names()) + seq![')'],
        decreases self, 1nat,
    {
        out.append(name);
        out.append("(");
        self.print_internal(e, out);
        out.append(")");
        proof {
            reveal_strlit("(");
            reveal_strlit(")");
            assert("("@ =~= seq!['(']);
            assert(")"@ =~= seq![')']);
        }
    }

    fn print_internal(&self, e: &Environment, out: &mut String)
        requires
            vars_below(*self, e.names().len()),
        ensures
            final(out)@ == old(out)@ + rendered(*self, e.names()),
        decreases self, 0nat,
    {
        match self {
            Expr::UnOp { op, exp: inexp } => {
                match op {
                    Uop::Sin => {
                        proof {
                            reveal_strlit("sin");
                            assert("sin"@ + seq!['('] =~= uop_prefix(Uop::Sin));
                        }
                        inexp.print_func("sin", e, out);
                    },
                    Uop::Cos => {
                        proof {
                            reveal_strlit("cos");
                            assert("cos"@ + seq!['('] =~= uop_prefix(Uop::Cos));
                        }
                        inexp.print_func("cos", e, out);
                    },
                    Uop::Tan => {
                        proof {
                            reveal_strlit("tan");
                            assert("tan"@ + seq!['('] =~= uop_prefix(Uop::Tan));
                        }
                        inexp.print_func("tan", e, out);
                    },
                    Uop::Log => {
                        proof {
                            reveal_strlit("log");
                            assert("log"@ + seq!['('] =~= uop_prefix(Uop::Log));
                        }
                        inexp.print_func("log", e, out);
                    },
                    Uop::Exp => {
                        proof {
                            reveal_strlit("exp");
                            assert("exp"@ + seq!['('] =~= uop_prefix(Uop::Exp));
                        }
                        inexp.print_func("exp", e, out);
                    },
                    Uop::Neg => {
                        proof {
                            reveal_strlit("-");
                            assert("-"@ =~= uop_prefix(Uop::Neg));
                        }
                        out.append("-");
                        inexp.print_internal(e, out);
                    },
                }
                assert(out@ =~= old(out)@ + rendered(*self, e.names()));
            },
            Expr::BinOp { op, exp1, exp2 } => {
                exp1.print_internal(e, out);
                match op {
                    Bop::Add => {
                        proof {
                            reveal_strlit("+");
                            assert("+"@ =~= bop_text(Bop::Add));
                        }
                        out.append("+");
                    },
                    Bop::Sub => {
                        proof {
                            reveal_strlit("-");
                            assert("-"@ =~= bop_text(Bop::Sub));
                        }
                        out.append("-");
                    },
                    Bop::Mul => {
                        proof {
                            reveal_strlit("*");
                            assert("*"@ =~= bop_text(Bop::Mul));
                        }
                        out.append("*");
                    },
                    Bop::Div => {
                        proof {
                            reveal_strlit("/");
                            assert("/"@ =~= bop_text(Bop::Div));
                        }
                        out.append("/");
                    },
                    Bop::Pow => {
                        proof {
                            reveal_strlit("^");
                            assert("^"@ =~= bop_text(Bop::Pow));
                        }
                        out.append("^");
                    },
                }
                exp2.print_internal(e, out);
                assert(out@ =~= old(out)@ + rendered(*self, e.names()));
            },
            Expr::Var(vt) => {
                out.append(e.var_name(*vt).as_str());
            },
            Expr::Num(n) => {
                out.append(ratio_to_string(*n).as_str());
            },
        }
    }
}

} // verus!
