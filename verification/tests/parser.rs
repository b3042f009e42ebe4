use std::rc::Rc;
use symdiff::parse::{expr, factor, term, unary, unsigned_number, variable, variables};
use symdiff::{Bop, Environment, Expr, Uop};

#[test]
fn number_parser() {
    let mut e = Environment::new();
    assert_eq!(
        Ok(("", Expr::new_num(64, &mut e))),
        unsigned_number("64", &mut e)
    );
    assert_eq!(
        Ok(("", Expr::new_num(12333, &mut e))),
        unsigned_number("12333", &mut e)
    );
    assert_eq!(Err(""), unsigned_number("", &mut e));
    assert_eq!(Err("-123"), unsigned_number("-123", &mut e));
}

#[test]
fn variable_parser() {
    let mut e = Environment::new();
    assert_eq!(
        Ok(("", Expr::new_var(0, &mut e))),
        variable("x1", &mut e)
    );
    assert_eq!(
        Ok(("", Expr::new_var(0, &mut e))),
        variable("x1", &mut e)
    );
    println!("{:?}", e);
}

#[test]
fn unary_parser() {
    let mut e = Environment::new();
    let x = Expr::new_var(0, &mut e);
    let exptcted_expr = Expr::new_unop(Uop::Log, x, &mut e);
    assert_eq!(
        Ok(("", exptcted_expr)),
        unary("  - + - + log(x)", &mut e)
    );
}

#[test]
fn factor_parser() {
    let mut e = Environment::new();
    let three = Expr::new_num(3, &mut e);
    let two = Expr::new_num(2, &mut e);
    let inner = Expr::new_binop(Bop::Pow, three, two, &mut e);
    let x = Expr::new_var(0, &mut e);
    let expected_factor1 = Expr::new_binop(Bop::Pow, x, inner, &mut e);
    assert_eq!(
        Ok(("", expected_factor1)),
        factor("x1 ^ 3 ^ 2", &mut e)
    );
}

#[test]
fn term_parser() {
    let mut e = Environment::new();
    let x = Expr::new_var(0, &mut e);
    let y = Expr::new_var(1, &mut e);
    let n3 = Expr::new_num(3, &mut e);
    let n2 = Expr::new_num(2, &mut e);
    let n4 = Expr::new_num(4, &mut e);
    let a = Expr::new_binop(Bop::Pow, x.clone(), n3, &mut e);
    let b = Expr::new_binop(Bop::Pow, y, n2, &mut e);
    let ab = Expr::new_binop(Bop::Mul, a, b, &mut e);
    let c = Expr::new_binop(Bop::Pow, x, n4, &mut e);
    let expected_term = Expr::new_binop(Bop::Mul, ab, c, &mut e);
    assert_eq!(
        Ok(("", expected_term)),
        term("x1 ^ 3 * y1 ^ 2 * x1 ^ 4", &mut e)
    );
}

fn eval(e: &Expr, vals: &[f64]) -> f64 {
    match e {
        Expr::UnOp { op, exp } => {
            let u = eval(exp, vals);
            match op {
                Uop::Sin => u.sin(),
                Uop::Cos => u.cos(),
                Uop::Tan => u.tan(),
                Uop::Log => u.ln(),
                Uop::Exp => u.exp(),
                Uop::Neg => -u,
            }
        }
        Expr::BinOp { op, exp1, exp2 } => {
            let a = eval(exp1, vals);
            let b = eval(exp2, vals);
            match op {
                Bop::Add => a + b,
                Bop::Sub => a - b,
                Bop::Mul => a * b,
                Bop::Div => a / b,
                Bop::Pow => a.powf(b),
            }
        }
        Expr::Var(v) => vals[v.id()],
        Expr::Num(n) => n.numer() as f64 / n.denom() as f64,
    }
}

#[test]
fn expr_parser() {
    let mut e = Environment::new();

    let two = Expr::new_num(2, &mut e);
    let x = Expr::new_var(0, &mut e);
    let y = Expr::new_var(1, &mut e);
    let log_x = Expr::new_unop(Uop::Log, x.clone(), &mut e);
    let num = Expr::new_binop(Bop::Add, two, log_x, &mut e);
    let deno = Expr::new_unop(Uop::Tan, x, &mut e);
    let quotient = Expr::new_binop(Bop::Div, num, deno, &mut e);
    let expr1 = Expr::new_binop(Bop::Pow, quotient, y.clone(), &mut e);
    let sin_y = Expr::new_unop(Uop::Sin, y, &mut e);
    let exptcted_expr = Expr::new_binop(Bop::Add, expr1, sin_y, &mut e);
    assert_eq!(
        Ok(("", exptcted_expr)),
        expr("( ( 2 + log(x) ) / tan(x) ) ^ y  + sin(y) ", &mut e)
    );
    let res = expr("1 / tan( x )", &mut e);

    match res {
        Ok((_, parsed)) => {
            let d = parsed.diff("x", &e).reduce(&e).unwrap();
            println!("{}", d.print(&e));
            e.clean();
            let value = eval(&d, &[std::f64::consts::FRAC_PI_2]);
            println!("{}", value);
            assert!((value - (-1.0)).abs() < 1e-9);
        }
        Err(_) => panic!(""),
    }
}

#[test]
fn variables_are_numbered_at_first_sight() {
    let mut e = Environment::new();
    let (rest, parsed) = expr("b + a * b", &mut e).unwrap();
    assert_eq!(rest, "");
    assert_eq!(e.var_count(), 2);
    assert_eq!(e.search_var(&String::from("b")).map(|v| v.id()), Some(0));
    assert_eq!(e.search_var(&String::from("a")).map(|v| v.id()), Some(1));
    assert_eq!(parsed.print(&e), "b+a*b");
}

#[test]
fn variables_reads_a_list_of_names() {
    let mut e = Environment::new();
    let (rest, vars) = variables("  x y1   z ", &mut e).unwrap();
    assert_eq!(rest, "");
    assert_eq!(vars.len(), 3);
    assert_eq!(vars[0], Expr::new_var(0, &mut e));
    assert_eq!(vars[1], Expr::new_var(1, &mut e));
    assert_eq!(vars[2], Expr::new_var(2, &mut e));
    assert_eq!(e.var_name(symdiff::Var::new(1)), "y1");
    let mut f = Environment::new();
    assert_eq!(variables("  1", &mut f), Err("1"));
    assert_eq!(variables("", &mut f), Err(""));
    let (rest, vars) = variables("x +", &mut f).unwrap();
    assert_eq!(rest, "+");
    assert_eq!(vars.len(), 1);
}

#[test]
fn a_list_of_operands_ends_before_an_operator_without_operand() {
    let mut e = Environment::new();
    let x = Expr::new_var(0, &mut e);
    assert_eq!(expr("x + ", &mut e), Ok(("+ ", x.clone())));
    assert_eq!(expr("x ^ )", &mut e), Ok(("^ )", x.clone())));
    assert_eq!(term("x * ", &mut e), Ok((" * ", x.clone())));
    assert_eq!(factor("x ^", &mut e), Ok((" ^", x.clone())));
    assert_eq!(expr("x )", &mut e), Ok((")", x)));
}

#[test]
fn malformed_text_is_given_back_from_the_place_of_failure() {
    let mut e = Environment::new();
    assert_eq!(expr("", &mut e), Err(""));
    assert_eq!(expr("   ", &mut e), Err(""));
    assert_eq!(expr(")", &mut e), Err(")"));
    assert_eq!(expr("(x + 1", &mut e), Err(""));
    assert_eq!(expr("(x + 1 ]", &mut e), Err("]"));
    assert_eq!(expr("sin(", &mut e), Err(""));
    assert_eq!(expr("* 2", &mut e), Err("* 2"));
    assert_eq!(unary(" x", &mut e), Err(" x"));
    assert_eq!(variable("1x", &mut e), Err("1x"));
}

#[test]
fn a_number_too_large_for_64_bits_is_refused() {
    let mut e = Environment::new();
    assert_eq!(
        unsigned_number("9223372036854775807", &mut e),
        Ok(("", Expr::new_num(i64::MAX, &mut e)))
    );
    assert_eq!(
        unsigned_number("9223372036854775808", &mut e),
        Err("9223372036854775808")
    );
    assert_eq!(expr("1 + 99999999999999999999", &mut e).map(|r| r.0), Ok("+ 99999999999999999999"));
}

#[test]
fn function_names_are_words_unless_a_bracket_follows() {
    let mut e = Environment::new();
    let (_, a) = expr("sinx", &mut e).unwrap();
    assert_eq!(a, Expr::new_var(0, &mut e));
    let (rest, b) = expr("sin (x)", &mut e).unwrap();
    assert_eq!(rest, "(x)");
    assert_eq!(b, Expr::new_var(1, &mut e));
    let (_, c) = expr("cos(sinx)", &mut e).unwrap();
    let inner = Expr::new_var(0, &mut e);
    assert_eq!(c, Expr::new_unop(Uop::Cos, inner, &mut e));
    for (text, op) in [
        ("sin(q)", Uop::Sin),
        ("cos(q)", Uop::Cos),
        ("tan(q)", Uop::Tan),
        ("log(q)", Uop::Log),
        ("exp(q)", Uop::Exp),
    ] {
        let (_, parsed) = expr(text, &mut e).unwrap();
        match &*parsed {
            Expr::UnOp { op: found, .. } => assert_eq!(*found, op),
            _ => panic!("no function"),
        }
    }
}

#[test]
fn signs_negate_when_the_minus_signs_are_odd() {
    let mut e = Environment::new();
    let x = Expr::new_var(0, &mut e);
    let neg = Expr::new_unop(Uop::Neg, x.clone(), &mut e);
    assert_eq!(unary("-x", &mut e), Ok(("", neg.clone())));
    assert_eq!(unary("- - x", &mut e), Ok(("", x.clone())));
    assert_eq!(unary("+x", &mut e), Ok(("", x.clone())));
    assert_eq!(unary("-+-+-x", &mut e), Ok(("", neg.clone())));
    let one = Expr::new_num(1, &mut e);
    let expected: Rc<Expr> = Expr::new_binop(Bop::Sub, one, neg, &mut e);
    assert_eq!(expr("1 - -x", &mut e), Ok(("", expected)));
}

#[test]
fn operators_group_to_the_left_and_powers_to_the_right() {
    let mut e = Environment::new();
    let (_, a) = expr("a - b - c", &mut e).unwrap();
    assert_eq!(a.print(&e), "a-b-c");
    match &*a {
        Expr::BinOp { op: Bop::Sub, exp1, exp2 } => {
            assert!(matches!(&**exp1, Expr::BinOp { op: Bop::Sub, .. }));
            assert!(matches!(&**exp2, Expr::Var(_)));
        }
        _ => panic!("no difference"),
    }
    let (_, p) = expr("a ^ b ^ c", &mut e).unwrap();
    match &*p {
        Expr::BinOp { op: Bop::Pow, exp1, exp2 } => {
            assert!(matches!(&**exp1, Expr::Var(_)));
            assert!(matches!(&**exp2, Expr::BinOp { op: Bop::Pow, .. }));
        }
        _ => panic!("no power"),
    }
    let (_, q) = expr("a / b * c", &mut e).unwrap();
    match &*q {
        Expr::BinOp { op: Bop::Mul, exp1, .. } => {
            assert!(matches!(&**exp1, Expr::BinOp { op: Bop::Div, .. }));
        }
        _ => panic!("no product"),
    }
}
