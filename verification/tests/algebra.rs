use std::rc::Rc;
use symdiff::parse::expr;
use symdiff::{Bop, Environment, Error, Expr, Rational, Uop, Var};

fn read(text: &str, e: &mut Environment) -> Rc<Expr> {
    let (rest, parsed) = expr(text, e).unwrap();
    assert_eq!(rest, "");
    parsed
}

fn reduced_text(text: &str) -> String {
    let mut e = Environment::new();
    let parsed = read(text, &mut e);
    parsed.reduce(&e).unwrap().print(&e)
}

fn reduce_error(text: &str) -> Error {
    let mut e = Environment::new();
    let parsed = read(text, &mut e);
    parsed.reduce(&e).unwrap_err()
}

fn eval(e: &Expr, vals: &[f64]) -> f64 {
    match e {
        Expr::UnOp { op, exp } => {
            let u = eval(exp, vals);
            match op {
                Uop::Sin => u.sin(),
                Uop::Cos => u.cos(),
                Uop::Tan => u.tan(),
                Uop::Log => u.ln(),
                Uop::Exp => u.exp(),
                Uop::Neg => -u,
            }
        }
        Expr::BinOp { op, exp1, exp2 } => {
            let a = eval(exp1, vals);
            let b = eval(exp2, vals);
            match op {
                Bop::Add => a + b,
                Bop::Sub => a - b,
                Bop::Mul => a * b,
                Bop::Div => a / b,
                Bop::Pow => a.powf(b),
            }
        }
        Expr::Var(v) => vals[v.id()],
        Expr::Num(n) => n.numer() as f64 / n.denom() as f64,
    }
}

fn constant(e: &Expr) -> (i64, i64) {
    match e {
        Expr::Num(n) => (n.numer(), n.denom()),
        _ => panic!("no constant: {:?}", e),
    }
}

#[test]
fn reduce_folds_equal_operands() {
    let mut e = Environment::new();
    let zero = Expr::new_num(0, &mut e);
    let one = Expr::new_num(1, &mut e);
    let two = Expr::new_num(2, &mut e);
    let x = Expr::new_var(0, &mut e);
    assert_eq!(read("x - x", &mut e).reduce(&e), Ok(zero));
    assert_eq!(read("x / x", &mut e).reduce(&e), Ok(one));
    let twice = Expr::new_binop(Bop::Mul, two.clone(), x.clone(), &mut e);
    assert_eq!(read("x + x", &mut e).reduce(&e), Ok(twice));
    let square = Expr::new_binop(Bop::Pow, x, two, &mut e);
    assert_eq!(read("x * x", &mut e).reduce(&e), Ok(square));
    assert_eq!(reduced_text("x + x"), "2*x");
    assert_eq!(reduced_text("sin(x) * sin(x)"), "sin(x)^2");
    assert_eq!(reduced_text("(x + y) - (x + y)"), "0");
    assert_eq!(reduced_text("(x + y) / (x + y)"), "1");
    assert_eq!(reduced_text("(x + y) - (y + x)"), "x+y-y+x");
}

#[test]
fn reduce_absorbs_zero_and_one() {
    assert_eq!(reduced_text("x + 0"), "x");
    assert_eq!(reduced_text("0 + x"), "x");
    assert_eq!(reduced_text("x - 0"), "x");
    assert_eq!(reduced_text("0 - x"), "0-x");
    assert_eq!(reduced_text("x * 0"), "0");
    assert_eq!(reduced_text("0 * x"), "0");
    assert_eq!(reduced_text("x * 1"), "x");
    assert_eq!(reduced_text("1 * x"), "x");
    assert_eq!(reduced_text("x * -1"), "-x");
    assert_eq!(reduced_text("-1 * x"), "-x");
    assert_eq!(reduced_text("x / 1"), "x");
    assert_eq!(reduced_text("x / -1"), "-x");
    assert_eq!(reduced_text("0 / x"), "0/x");
    assert_eq!(reduced_text("x ^ 1"), "x");
    assert_eq!(reduced_text("x ^ 0"), "1");
    assert_eq!(reduced_text("0 ^ x"), "0");
    assert_eq!(reduced_text("1 ^ x"), "1");
    assert_eq!(reduced_text("2 ^ 3"), "2^3");
    assert_eq!(reduced_text("sin(0)"), "0");
    assert_eq!(reduced_text("cos(0)"), "1");
    assert_eq!(reduced_text("tan(0)"), "0");
    assert_eq!(reduced_text("log(1)"), "0");
    assert_eq!(reduced_text("exp(0)"), "1");
    assert_eq!(reduced_text("sin(1)"), "sin(1)");
    assert_eq!(reduced_text("log(0)"), "log(0)");
    assert_eq!(reduced_text("sin(x - x)"), "0");
    assert_eq!(reduced_text("(x * 0) + (y * 1)"), "y");
}

#[test]
fn reduce_folds_constants_exactly() {
    let mut e = Environment::new();
    assert_eq!(constant(&read("1/2 + 1/3", &mut e).reduce(&e).unwrap()), (5, 6));
    assert_eq!(constant(&read("1/2 - 1/3", &mut e).reduce(&e).unwrap()), (1, 6));
    assert_eq!(constant(&read("(2/3) * (3/4)", &mut e).reduce(&e).unwrap()), (1, 2));
    assert_eq!(constant(&read("(1/2) / (1/4)", &mut e).reduce(&e).unwrap()), (2, 1));
    assert_eq!(constant(&read("4 / 6", &mut e).reduce(&e).unwrap()), (2, 3));
    assert_eq!(constant(&read("1 / -2", &mut e).reduce(&e).unwrap()), (-1, 2));
    assert_eq!(constant(&read("-(3)", &mut e).reduce(&e).unwrap()), (-3, 1));
    assert_eq!(constant(&read("2 + 3 * 4", &mut e).reduce(&e).unwrap()), (14, 1));
    assert_eq!(constant(&read("1/3 + 2/3", &mut e).reduce(&e).unwrap()), (1, 1));
    assert_eq!(constant(&read("1/3 - 1/3", &mut e).reduce(&e).unwrap()), (0, 1));
    assert_eq!(reduced_text("1/2 + 1/3"), "5/6");
    assert_eq!(reduced_text("1 / -2"), "-1/2");
    assert_eq!(reduced_text("7"), "7");
    assert_eq!(reduced_text("x + (1/2 + 1/2)"), "x+1");
}

#[test]
fn reduce_reports_division_by_the_constant_zero() {
    assert_eq!(reduce_error("x / 0"), Error::DivisionByZero);
    assert_eq!(reduce_error("1 / 0"), Error::DivisionByZero);
    assert_eq!(reduce_error("0 / 0"), Error::DivisionByZero);
    assert_eq!(reduce_error("x / (1 - 1)"), Error::DivisionByZero);
    assert_eq!(reduce_error("sin(y + 2 / (x * 0))"), Error::DivisionByZero);
    assert_eq!(reduced_text("x / (y - y + z)"), "x/z");
    assert_eq!(reduced_text("1 / (x - 2)"), "1/x-2");
    assert_eq!(reduce_error("x / (-1*5 + 5)"), Error::DivisionByZero);
    assert_eq!(reduce_error("x / (5 / -1 + 5)"), Error::DivisionByZero);
    assert_eq!(reduced_text("x / (y - z)"), "x/y-z");
}

#[test]
fn reduce_reports_overflow() {
    assert_eq!(reduce_error("9223372036854775807 + 1"), Error::Overflow);
    assert_eq!(reduce_error("9223372036854775807 * 2"), Error::Overflow);
    assert_eq!(reduce_error("-9223372036854775807 - 2"), Error::Overflow);
    assert_eq!(reduce_error("1 / 9223372036854775807 / 2"), Error::Overflow);
    assert_eq!(reduce_error("-(-9223372036854775807 - 1)"), Error::Overflow);
    let mut e = Environment::new();
    let least = read("-9223372036854775807 - 1", &mut e).reduce(&e).unwrap();
    assert_eq!(constant(&least), (i64::MIN, 1));
    assert_eq!(constant(&read("9223372036854775806 + 1", &mut e).reduce(&e).unwrap()), (i64::MAX, 1));
    assert_eq!(reduce_error("(1 / 0) + (9223372036854775807 + 1)"), Error::DivisionByZero);
    assert_eq!(reduce_error("(9223372036854775807 + 1) + (1 / 0)"), Error::Overflow);
}

#[test]
fn a_factor_of_minus_one_folds_with_a_constant() {
    let mut e = Environment::new();
    for text in ["-1 * 5", "5 * -1", "5 / -1", "-5 / 1", "1 * -5"] {
        let once = read(text, &mut e).reduce(&e).unwrap();
        assert_eq!(constant(&once), (-5, 1), "{}", text);
        assert_eq!(once.reduce(&e), Ok(once.clone()));
    }
    assert_eq!(constant(&read("(-1 * 5) + 5", &mut e).reduce(&e).unwrap()), (0, 1));
    assert_eq!(constant(&read("(1/2) / -1", &mut e).reduce(&e).unwrap()), (-1, 2));
    assert_eq!(constant(&read("-1 * -1", &mut e).reduce(&e).unwrap()), (1, 1));
    assert_eq!(reduced_text("x * -1"), "-x");
    assert_eq!(reduced_text("-1 * (x + 2)"), "-x+2");
    assert_eq!(reduced_text("(x + 2) / -1"), "-x+2");
    assert_eq!(reduce_error("-1 * (-9223372036854775807 - 1)"), Error::Overflow);
    assert_eq!(reduce_error("(-9223372036854775807 - 1) / -1"), Error::Overflow);
}

#[test]
fn zero_divided_by_a_constant_is_zero() {
    let mut e = Environment::new();
    let least_third = read("(0 - 9223372036854775807 - 1) / 3", &mut e).reduce(&e).unwrap();
    assert_eq!(constant(&least_third), (i64::MIN, 3));
    let zero = Expr::new_num(0, &mut e);
    assert_eq!(
        constant(&Expr::new_num_from_op(zero.clone(), least_third, Bop::Div).unwrap()),
        (0, 1)
    );
    let parsed = read("0 / ((0 - 9223372036854775807 - 1) / 3)", &mut e);
    assert_eq!(constant(&parsed.reduce(&e).unwrap()), (0, 1));
    assert_eq!(constant(&read("0 / 7", &mut e).reduce(&e).unwrap()), (0, 1));
    assert_eq!(constant(&read("0 / (1/2 - 1)", &mut e).reduce(&e).unwrap()), (0, 1));
    assert_eq!(reduced_text("0 / x"), "0/x");
    assert_eq!(reduce_error("0 / (2 - 2)"), Error::DivisionByZero);
}

#[test]
fn reduce_twice_changes_no_constant() {
    let mut e = Environment::new();
    for text in ["1/2 + 1/3", "2 * 3 - 4", "7", "(1 + 2) / (3 + 4)", "sin(0) + cos(0)"] {
        let once = read(text, &mut e).reduce(&e).unwrap();
        assert!(matches!(&*once, Expr::Num(_)));
        assert_eq!(once.reduce(&e), Ok(once.clone()));
    }
    for text in [
        "x + y * 2",
        "sin(x) / (x + 1)",
        "x ^ y - 3",
        "x + x",
        "x * x",
        "exp(2)",
        "-1 * 5 + x * -1",
        "(3 / -1) * y - (-1 * x)",
        "sin(-1 * 2) ^ (2 * -1)",
        "0 - x / -1",
        "(x - x + y) * (1 * -1) / (y * 1)",
    ] {
        let once = read(text, &mut e).reduce(&e).unwrap();
        assert_eq!(once.reduce(&e), Ok(once.clone()));
    }
}

#[test]
fn reduce_keeps_the_value() {
    let points: [[f64; 3]; 4] = [[0.7, 1.3, 2.1], [2.0, 1.0, 3.0], [-1.5, 0.4, 0.9], [3.2, -2.2, 1.1]];
    let texts = [
        "x + 0 * y",
        "(x - x) + y * 1",
        "x / x + y / 1",
        "x + x + (z * z)",
        "sin(0) * x + cos(0) * y + exp(0) * z + log(1)",
        "(1/2 + 1/3) * x - y * -1",
        "x ^ 1 + y ^ 0 + 1 ^ z",
        "(x + y) / (x + y) + (x * y - x * y)",
        "-(3) * x / (2 * 4)",
        "exp(x * y) / (z ^ 2 + 1)",
    ];
    for text in texts {
        let mut e = Environment::new();
        for name in ["x", "y", "z"] {
            e.extend_var(String::from(name));
        }
        let parsed = read(text, &mut e);
        let reduced = parsed.reduce(&e).unwrap();
        for p in points.iter() {
            let a = eval(&parsed, p);
            let b = eval(&reduced, p);
            assert!((a - b).abs() <= 1e-9 * (1.0 + a.abs()), "{} at {:?}: {} and {}", text, p, a, b);
        }
    }
}

fn derivative_matches(text: &str, names: &[&str], by: &str, point: &[f64]) {
    let mut e = Environment::new();
    for name in names {
        e.extend_var(String::from(*name));
    }
    let parsed = read(text, &mut e);
    let d = parsed.diff(by, &e);
    let k = e.search_var(&String::from(by)).unwrap().id();
    let h = 1e-5;
    let mut up = point.to_vec();
    let mut down = point.to_vec();
    up[k] += h;
    down[k] -= h;
    let numeric = (eval(&parsed, &up) - eval(&parsed, &down)) / (2.0 * h);
    let symbolic = eval(&d, point);
    assert!(
        (numeric - symbolic).abs() < 1e-6 * (1.0 + symbolic.abs()),
        "{} by {} at {:?}: {} and {}",
        text,
        by,
        point,
        symbolic,
        numeric
    );
    let reduced = d.reduce(&e).unwrap();
    let again = eval(&reduced, point);
    assert!((again - symbolic).abs() < 1e-9 * (1.0 + symbolic.abs()));
}

#[test]
fn derivatives_match_finite_differences() {
    let points: [[f64; 2]; 3] = [[0.7, 1.3], [1.9, 0.6], [0.25, 2.5]];
    let texts = [
        "sin(x)",
        "cos(x)",
        "tan(x)",
        "log(x)",
        "exp(x)",
        "-x",
        "x + y",
        "x - y",
        "x * y",
        "x / y",
        "x ^ y",
        "sin(x * y) / (x + y)",
        "exp(x ^ 2) * log(x + y) - tan(x / y)",
        "cos(sin(x)) ^ 3",
        "(x + 1) * (x + 2) * (x + 3)",
        "1 / tan(x)",
    ];
    for text in texts {
        for p in points.iter() {
            derivative_matches(text, &["x", "y"], "x", p);
            derivative_matches(text, &["x", "y"], "y", p);
        }
    }
}

#[test]
fn derivatives_of_leaves() {
    let mut e = Environment::new();
    let x = read("x", &mut e);
    let y = read("y", &mut e);
    let five = read("5", &mut e);
    let zero = Expr::new_num(0, &mut e);
    let one = Expr::new_num(1, &mut e);
    assert_eq!(x.diff("x", &e), one);
    assert_eq!(x.diff("y", &e), zero);
    assert_eq!(y.diff("y", &e), one);
    assert_eq!(five.diff("x", &e), zero);
}

#[test]
fn derivative_by_an_unknown_name_is_zero() {
    let mut e = Environment::new();
    let parsed = read("x * y + sin(x)", &mut e);
    let zero = Expr::new_num(0, &mut e);
    assert_eq!(parsed.diff("w", &e), zero);
    assert_eq!(parsed.diff("", &e), zero);
    assert_eq!(e.var_count(), 2);
}

#[test]
fn derivatives_have_the_shape_of_the_rules() {
    let mut e = Environment::new();
    let cases = [
        ("sin(x)", "cos(x)*1"),
        ("cos(x)", "-sin(x)*1"),
        ("tan(x)", "1/cos(x)^2*1"),
        ("log(x)", "1/x*1"),
        ("exp(x)", "exp(x)*1"),
        ("-x", "-1"),
        ("x + y", "1*1+1*0"),
        ("x - y", "1*1+-1*0"),
        ("x * y", "y*1+x*0"),
        ("x / y", "1/y*1+-x/y^2*0"),
        ("x ^ y", "y/x*x^y*1+log(x)*x^y*0"),
    ];
    for (text, expected) in cases {
        let parsed = read(text, &mut e);
        assert_eq!(parsed.diff("x", &e).print(&e), expected, "{}", text);
    }
    let square = read("x * x", &mut e);
    assert_eq!(square.diff("x", &e).reduce(&e).unwrap().print(&e), "2*x");
    match &*read("cos(x)", &mut e).diff("x", &e) {
        Expr::UnOp { op: Uop::Neg, exp } => assert!(matches!(&**exp, Expr::BinOp { op: Bop::Mul, .. })),
        other => panic!("{:?}", other),
    }
}

#[test]
fn local_factors_take_one_step_of_the_chain_rule() {
    let mut e = Environment::new();
    let cases: [(&str, &[&str]); 13] = [
        ("sin(x*y)", &["cos(x*y)"]),
        ("cos(x*y)", &["-sin(x*y)"]),
        ("tan(x*y)", &["1/cos(x*y)^2"]),
        ("log(x*y)", &["1/x*y"]),
        ("exp(x*y)", &["exp(x*y)"]),
        ("-(x*y)", &["-1"]),
        ("sin(x) + y", &["1", "1"]),
        ("sin(x) - y", &["1", "-1"]),
        ("sin(x) * y", &["y", "sin(x)"]),
        ("sin(x) / y", &["1/y", "-sin(x)/y^2"]),
        ("sin(x) ^ y", &["y/sin(x)*sin(x)^y", "log(sin(x))*sin(x)^y"]),
        ("x", &[]),
        ("3", &[]),
    ];
    for (text, expected) in cases {
        let parsed = read(text, &mut e);
        let found: Vec<String> = parsed.diff_comp().iter().map(|f| f.print(&e)).collect();
        assert_eq!(found, expected, "{}", text);
    }
}

#[test]
fn print_writes_infix_text() {
    let mut e = Environment::new();
    let parsed = read("sin(alpha) + -beta2 ^ 2 / 3 - exp( (alpha*beta2) )", &mut e);
    assert_eq!(parsed.print(&e), "sin(alpha)+-beta2^2/3-exp(alpha*beta2)");
    let nested = read("log(cos(tan(x)))", &mut e);
    assert_eq!(nested.print(&e), "log(cos(tan(x)))");
    let half = read("1/2", &mut e).reduce(&e).unwrap();
    assert_eq!(half.print(&e), "1/2");
    let minus = read("0 - 7", &mut e).reduce(&e).unwrap();
    assert_eq!(minus.print(&e), "-7");
    let big = Expr::new_num(i64::MIN, &mut e);
    assert_eq!(big.print(&e), "-9223372036854775808");
}

#[test]
fn constants_know_what_they_are() {
    let mut e = Environment::new();
    let zero = read("0", &mut e);
    let one = read("1", &mut e);
    let minus_one = read("0 - 1", &mut e).reduce(&e).unwrap();
    let half = read("1/2", &mut e).reduce(&e).unwrap();
    let x = read("x", &mut e);
    assert!(zero.is_zero() && zero.is_const() && !zero.is_one() && !zero.is_minus_one());
    assert!(one.is_one() && one.is_const() && !one.is_zero() && !one.is_minus_one());
    assert!(minus_one.is_minus_one() && !minus_one.is_one() && !minus_one.is_zero());
    assert!(half.is_const() && !half.is_one() && !half.is_zero() && !half.is_minus_one());
    assert!(!x.is_const() && !x.is_zero() && !x.is_one() && !x.is_minus_one());
    let n: Rational = match &*half {
        Expr::Num(n) => *n,
        _ => panic!(),
    };
    assert_eq!((n.numer(), n.denom()), (1, 2));
    assert!(!n.is_zero() && !n.is_one() && !n.is_minus_one());
    assert_eq!(n.checked_neg().map(|m| (m.numer(), m.denom())), Some((-1, 2)));
    let least = match &*Expr::new_num(i64::MIN, &mut e) {
        Expr::Num(n) => *n,
        _ => panic!(),
    };
    assert_eq!(least.checked_neg(), None);
}

#[test]
fn new_num_from_op_folds_two_constants() {
    let mut e = Environment::new();
    let a = read("3/4", &mut e).reduce(&e).unwrap();
    let b = read("5/6", &mut e).reduce(&e).unwrap();
    let zero = Expr::new_num(0, &mut e);
    assert_eq!(constant(&Expr::new_num_from_op(a.clone(), b.clone(), Bop::Add).unwrap()), (19, 12));
    assert_eq!(constant(&Expr::new_num_from_op(a.clone(), b.clone(), Bop::Sub).unwrap()), (-1, 12));
    assert_eq!(constant(&Expr::new_num_from_op(a.clone(), b.clone(), Bop::Mul).unwrap()), (5, 8));
    assert_eq!(constant(&Expr::new_num_from_op(a.clone(), b.clone(), Bop::Div).unwrap()), (9, 10));
    assert_eq!(Expr::new_num_from_op(a.clone(), zero.clone(), Bop::Div), Err(Error::DivisionByZero));
    assert_eq!(constant(&Expr::new_num_from_op(zero, a, Bop::Div).unwrap()), (0, 1));
}

#[test]
fn expressions_are_equal_by_shape() {
    let mut e = Environment::new();
    let a = read("sin(x) * (y + 2)", &mut e);
    let b = read("sin( x )*( y+2 )", &mut e);
    let c = read("sin(x) * (y + 3)", &mut e);
    let d = read("sin(x) * (2 + y)", &mut e);
    assert_eq!(a, b);
    assert!(a.same(&b));
    assert_ne!(a, c);
    assert_ne!(a, d);
    assert!(!a.same(&d));
    let copy: Expr = (*a).clone();
    assert_eq!(copy, *a);
    assert_ne!(*read("x", &mut e), *read("y", &mut e));
    assert_ne!(*read("1", &mut e), *read("x", &mut e));
}

#[test]
fn environment_numbers_variables_in_order() {
    let mut e = Environment::new();
    assert_eq!(e.var_count(), 0);
    assert_eq!(e.search_var(&String::from("x")), None);
    let x = e.extend_var(String::from("x"));
    let y = e.extend_var(String::from("y"));
    assert_eq!((x.id(), y.id()), (0, 1));
    assert_eq!(x, Var::new(0));
    assert_eq!(e.search_var(&String::from("x")), Some(x));
    assert_eq!(e.search_var(&String::from("y")), Some(y));
    assert_eq!(e.search_var(&String::from("z")), None);
    assert_eq!(e.var_name(y), "y");
    assert_eq!(e.var_count(), 2);
}

#[test]
fn extend_var_gives_a_name_a_new_variable_each_time() {
    let mut e = Environment::new();
    let first = e.extend_var(String::from("x"));
    let second = e.extend_var(String::from("x"));
    assert_eq!((first.id(), second.id()), (0, 1));
    assert_eq!(e.search_var(&String::from("x")), Some(second));
    assert_eq!(e.var_name(first), "x");
    assert_eq!(e.var_name(second), "x");
    assert_eq!(e.var_count(), 2);
}

#[test]
fn environment_shares_equal_expressions() {
    let mut e = Environment::new();
    let x = Expr::Var(Var::new(0));
    let y = Expr::Var(Var::new(1));
    assert!(e.search_expr(&x).is_none());
    let a = e.extend_expr(x.clone());
    let b = e.extend_expr(x.clone());
    assert_eq!(*a, x);
    assert!(Rc::ptr_eq(&a, &b));
    assert!(e.search_expr(&x).is_some());
    assert!(e.search_expr(&y).is_none());
    let c = e.extend_expr(y.clone());
    assert!(!Rc::ptr_eq(&a, &c));
    e.remove_expr(&x);
    assert!(e.search_expr(&x).is_none());
    assert!(e.search_expr(&y).is_some());
    let d = e.extend_expr(x.clone());
    assert!(!Rc::ptr_eq(&a, &d));
    assert_eq!(*d, x);
}

#[test]
fn clean_empties_the_cache_and_keeps_the_variables() {
    let mut e = Environment::new();
    let parsed = read("x + y * 2", &mut e);
    assert!(e.search_expr(&parsed).is_some());
    e.clean();
    assert!(e.search_expr(&parsed).is_none());
    assert_eq!(e.var_count(), 2);
    assert_eq!(e.search_var(&String::from("y")).map(|v| v.id()), Some(1));
    assert_eq!(parsed.print(&e), "x+y*2");
}

#[test]
fn constructors_put_what_they_make_into_the_cache() {
    let mut e = Environment::new();
    let two = Expr::new_num(2, &mut e);
    let x = Expr::new_var(0, &mut e);
    let neg = Expr::new_unop(Uop::Neg, x.clone(), &mut e);
    let sum = Expr::new_binop(Bop::Add, two.clone(), neg.clone(), &mut e);
    for made in [&two, &x, &neg, &sum] {
        assert!(Rc::ptr_eq(&e.search_expr(made).unwrap(), made));
    }
    assert_eq!(e.var_count(), 0);
    assert_eq!(constant(&two), (2, 1));
    assert_eq!(*x, Expr::Var(Var::new(0)));
    match &*sum {
        Expr::BinOp { op: Bop::Add, exp1, exp2 } => {
            assert!(Rc::ptr_eq(exp1, &two));
            assert!(Rc::ptr_eq(exp2, &neg));
        }
        _ => panic!(),
    }
}

#[test]
fn wrap_folded_turns_a_fraction_into_a_constant() {
    let mut e = Environment::new();
    let half = match &*read("1/2", &mut e).reduce(&e).unwrap() {
        Expr::Num(n) => *n,
        _ => panic!(),
    };
    let wrapped = symdiff::simplify::wrap_folded(Some(half)).unwrap();
    assert_eq!(constant(&wrapped), (1, 2));
    assert_eq!(symdiff::simplify::wrap_folded(None), Err(Error::Overflow));
}
