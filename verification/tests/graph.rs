use std::collections::HashSet;
use std::rc::Rc;
use symdiff::parse::expr;
use symdiff::{Bop, Deriv, Environment, Error, Expr, Uop, Var};

fn read(text: &str, e: &mut Environment) -> Rc<Expr> {
    let (rest, parsed) = expr(text, e).unwrap();
    assert_eq!(rest, "");
    parsed
}

fn eval(e: &Expr, vals: &[f64]) -> f64 {
    match e {
        Expr::UnOp { op, exp } => {
            let u = eval(exp, vals);
            match op {
                Uop::Sin => u.sin(),
                Uop::Cos => u.cos(),
                Uop::Tan => u.tan(),
                Uop::Log => u.ln(),
                Uop::Exp => u.exp(),
                Uop::Neg => -u,
            }
        }
        Expr::BinOp { op, exp1, exp2 } => {
            let a = eval(exp1, vals);
            let b = eval(exp2, vals);
            match op {
                Bop::Add => a + b,
                Bop::Sub => a - b,
                Bop::Mul => a * b,
                Bop::Div => a / b,
                Bop::Pow => a.powf(b),
            }
        }
        Expr::Var(v) => vals[v.id()],
        Expr::Num(n) => n.numer() as f64 / n.denom() as f64,
    }
}

fn path_sum(d: &Deriv, node: usize, vals: &[f64]) -> f64 {
    if let Some(leaf) = d.leafs.get(&node) {
        return if *leaf == Some(d.diff_by) { 1.0 } else { 0.0 };
    }
    d.graph[node]
        .iter()
        .map(|edge| eval(&edge.exp, vals) * path_sum(d, edge.to, vals))
        .sum()
}

fn evaluate(d: &Deriv, vals: &[f64]) -> f64 {
    path_sum(d, d.root, vals)
}

fn edges(d: &Deriv) -> Vec<(usize, usize)> {
    let mut all = Vec::new();
    for (from, row) in d.graph.iter().enumerate() {
        for edge in row {
            all.push((from, edge.to));
        }
    }
    all
}

fn back_edges(d: &Deriv) -> Vec<(usize, usize)> {
    let mut all = Vec::new();
    for (to, row) in d.reverse_graph.iter().enumerate() {
        for edge in row {
            all.push((edge.to, to));
        }
    }
    all.sort();
    all
}

fn sorted(mut v: Vec<(usize, usize)>) -> Vec<(usize, usize)> {
    v.sort();
    v
}

fn set(items: &[usize]) -> HashSet<usize> {
    items.iter().copied().collect()
}

fn close(a: f64, b: f64) -> bool {
    (a - b).abs() <= 1e-9 * (1.0 + a.abs().max(b.abs()))
}

#[test]
fn create_diff_graph() {
    let mut e = Environment::new();
    let res = expr("x * z / (x + y)", &mut e);
    match res {
        Ok((_, parsed)) => {
            println!("{}", parsed.diff("x", &e).reduce(&e).unwrap().print(&e));
            let mut d = Deriv::new(parsed, &mut e, "x").unwrap();
            e.clean();
            for (i, l) in d.graph.iter().enumerate() {
                for edge in l {
                    println!("{} -> {}", i, edge.to);
                    println!("{}", edge.exp.print(&e));
                }
            }
            let doms = d.dom_rel().unwrap();
            let pdoms = d.pdom_rel();
            let factor_subgraphs = d.factor_subgraphs(&doms, &pdoms);
            for fsub in factor_subgraphs {
                d.shrink(fsub, &doms, &pdoms, &mut e).unwrap();
            }
            println!("shrinked");
            for (i, l) in d.graph.iter().enumerate() {
                for edge in l {
                    println!("{} -> {}", i, edge.to);
                    println!("{}", edge.exp.print(&e));
                }
            }
        }
        Err(_) => panic!(""),
    }
}

#[test]
fn the_graph_has_a_node_for_each_distinct_subexpression() {
    let mut e = Environment::new();
    let parsed = read("x * z / (x + y)", &mut e);
    let d = Deriv::new(parsed, &mut e, "x").unwrap();
    assert_eq!(d.size, 6);
    assert_eq!(d.root, 5);
    assert_eq!(d.diff_by, Var::new(0));
    assert_eq!(d.leafs.len(), 3);
    assert_eq!(d.leafs[&0], Some(Var::new(0)));
    assert_eq!(d.leafs[&1], Some(Var::new(1)));
    assert_eq!(d.leafs[&3], Some(Var::new(2)));
    assert_eq!(edges(&d), vec![(2, 0), (2, 1), (4, 0), (4, 3), (5, 2), (5, 4)]);
    assert_eq!(back_edges(&d), vec![(2, 0), (2, 1), (4, 0), (4, 3), (5, 2), (5, 4)]);
    let texts: Vec<Vec<String>> = d
        .graph
        .iter()
        .map(|row| row.iter().map(|edge| edge.exp.print(&e)).collect())
        .collect();
    let none: Vec<String> = Vec::new();
    assert_eq!(texts[0], none);
    assert_eq!(texts[2], vec!["z", "x"]);
    assert_eq!(texts[4], vec!["1", "1"]);
    assert_eq!(texts[5], vec!["1/x+y", "-x*z/x+y^2"]);
    for (to, row) in d.reverse_graph.iter().enumerate() {
        for back in row {
            assert!(d.graph[back.to].iter().any(|edge| edge.to == to && edge.exp == back.exp));
        }
    }
}

#[test]
fn the_graph_is_built_from_the_reduced_expression() {
    let mut e = Environment::new();
    let parsed = read("(x + 0) * 1 + (y - y)", &mut e);
    let d = Deriv::new(parsed, &mut e, "x").unwrap();
    assert_eq!(d.size, 1);
    assert_eq!(d.root, 0);
    assert_eq!(d.leafs[&0], Some(Var::new(0)));
    assert!(edges(&d).is_empty());
    assert!(close(evaluate(&d, &[5.0, 7.0]), 1.0));
    let constant = read("2 * 3", &mut e);
    let c = Deriv::new(constant, &mut e, "x").unwrap();
    assert_eq!(c.size, 1);
    assert_eq!(c.leafs[&0], None);
    assert!(close(evaluate(&c, &[5.0, 7.0]), 0.0));
}

#[test]
fn equal_subexpressions_share_a_node() {
    let mut e = Environment::new();
    let parsed = read("sin(x + y) * cos(x + y) + (x + y)", &mut e);
    let d = Deriv::new(parsed, &mut e, "x").unwrap();
    assert_eq!(d.size, 7);
    assert_eq!(
        edges(&d),
        vec![(2, 0), (2, 1), (3, 2), (4, 2), (5, 3), (5, 4), (6, 5), (6, 2)]
    );
    assert_eq!(d.reverse_graph[2].len(), 3);
    let power = read("x ^ x", &mut e);
    let p = Deriv::new(power, &mut e, "x").unwrap();
    assert_eq!(p.size, 2);
    assert_eq!(edges(&p), vec![(1, 0), (1, 0)]);
    assert_eq!(p.reverse_graph[0].len(), 2);
    let at = [1.7];
    assert!(close(evaluate(&p, &at), 1.7f64.powf(1.7) * (1.0 + 1.7f64.ln())));
}

#[test]
fn build_reports_what_reduce_reports() {
    let mut e = Environment::new();
    let parsed = read("x / (y - y)", &mut e);
    assert_eq!(Deriv::new(parsed, &mut e, "x").err(), Some(Error::DivisionByZero));
    let big = read("x + 9223372036854775807 * 3", &mut e);
    assert_eq!(Deriv::new(big, &mut e, "x").err(), Some(Error::Overflow));
    assert_eq!(e.var_count(), 2);
}

#[test]
fn build_gives_an_unknown_name_a_new_variable() {
    let mut e = Environment::new();
    let parsed = read("x * y", &mut e);
    let d = Deriv::new(parsed.clone(), &mut e, "w").unwrap();
    assert_eq!(d.diff_by, Var::new(2));
    assert_eq!(e.var_count(), 3);
    assert_eq!(e.search_var(&String::from("w")), Some(Var::new(2)));
    assert!(close(evaluate(&d, &[2.0, 3.0, 4.0]), 0.0));
    let again = Deriv::new(parsed, &mut e, "y").unwrap();
    assert_eq!(again.diff_by, Var::new(1));
    assert_eq!(e.var_count(), 3);
    assert!(close(evaluate(&again, &[2.0, 3.0, 4.0]), 2.0));
}

#[test]
fn the_path_sum_is_the_derivative() {
    let texts = [
        "x * z / (x + y)",
        "sin(x) * cos(x)",
        "sin(exp(x)) * cos(exp(x))",
        "x ^ x",
        "(x + y) * (x + y) * (x + z)",
        "log(x * y) / tan(z - x) + exp(-x)",
        "x ^ y ^ z",
        "1 / tan(x)",
    ];
    let points: [[f64; 3]; 3] = [[2.0, 1.0, 3.0], [0.7, 1.3, 2.1], [1.9, 0.4, 0.8]];
    for text in texts {
        for by in ["x", "y", "z"] {
            let mut e = Environment::new();
            for name in ["x", "y", "z"] {
                e.extend_var(String::from(name));
            }
            let parsed = read(text, &mut e);
            let d = Deriv::new(parsed.clone(), &mut e, by).unwrap();
            let symbolic = parsed.diff(by, &e);
            for p in points.iter() {
                let a = evaluate(&d, p);
                let b = eval(&symbolic, p);
                assert!(close(a, b), "{} by {} at {:?}: {} and {}", text, by, p, a, b);
            }
        }
    }
}

#[test]
fn dominators_of_the_example() {
    let mut e = Environment::new();
    let parsed = read("x * z / (x + y)", &mut e);
    let d = Deriv::new(parsed, &mut e, "x").unwrap();
    let doms = d.dom_rel().unwrap();
    assert_eq!(
        doms,
        vec![set(&[0, 5]), set(&[1, 2, 5]), set(&[2, 5]), set(&[3, 4, 5]), set(&[4, 5]), set(&[5])]
    );
    let pdoms = d.pdom_rel();
    assert_eq!(
        pdoms,
        vec![set(&[0]), set(&[1]), set(&[2]), set(&[3]), set(&[4]), set(&[5])]
    );
}

#[test]
fn dominators_of_a_chain_with_a_diamond() {
    let mut e = Environment::new();
    let parsed = read("sin(exp(x)) * cos(exp(x))", &mut e);
    let d = Deriv::new(parsed, &mut e, "x").unwrap();
    assert_eq!(edges(&d), vec![(1, 0), (2, 1), (3, 1), (4, 2), (4, 3)]);
    assert_eq!(
        d.dom_rel().unwrap(),
        vec![set(&[0, 1, 4]), set(&[1, 4]), set(&[2, 4]), set(&[3, 4]), set(&[4])]
    );
    assert_eq!(
        d.pdom_rel(),
        vec![set(&[0]), set(&[0, 1]), set(&[0, 1, 2]), set(&[0, 1, 3]), set(&[0, 1, 4])]
    );
}

#[test]
fn dominance_laws_hold_on_examples() {
    let texts = [
        "x * z / (x + y)",
        "sin(exp(x)) * cos(exp(x))",
        "(x + y) * (x + y) * (x + z) - log(x + y) ^ (y * z)",
        "x",
        "x ^ x",
        "exp(sin(x) + cos(x)) / (sin(x) - cos(x))",
    ];
    for text in texts {
        let mut e = Environment::new();
        let parsed = read(text, &mut e);
        let d = Deriv::new(parsed, &mut e, "x").unwrap();
        let doms = d.dom_rel().unwrap();
        let pdoms = d.pdom_rel();
        assert_eq!(doms.len(), d.size);
        assert_eq!(pdoms.len(), d.size);
        for n in 0..d.size {
            assert!(doms[n].contains(&n));
            assert!(pdoms[n].contains(&n));
            assert!(doms[n].contains(&d.root));
            for a in doms[n].iter() {
                assert!(*a >= n && *a < d.size);
                for b in doms[n].iter() {
                    assert!(doms[*a].contains(b) || doms[*b].contains(a));
                    if a >= b {
                        assert!(doms[*b].contains(a));
                    }
                }
            }
            for a in pdoms[n].iter() {
                assert!(*a <= n);
            }
        }
    }
}

#[test]
fn candidates_are_sorted_by_distance() {
    let mut e = Environment::new();
    let parsed = read("x * z / (x + y)", &mut e);
    let d = Deriv::new(parsed, &mut e, "x").unwrap();
    let doms = d.dom_rel().unwrap();
    let pdoms = d.pdom_rel();
    assert_eq!(d.factor_subgraphs(&doms, &pdoms), vec![(5, 0)]);

    let chain = read("sin(exp(x)) * cos(exp(x))", &mut e);
    let c = Deriv::new(chain, &mut e, "x").unwrap();
    let doms = c.dom_rel().unwrap();
    let pdoms = c.pdom_rel();
    assert_eq!(c.factor_subgraphs(&doms, &pdoms), vec![(4, 1), (1, 4)]);

    let wide = read("(sin(x) * cos(x)) * (exp(x) + log(x))", &mut e);
    let w = Deriv::new(wide, &mut e, "x").unwrap();
    assert_eq!(
        edges(&w),
        vec![(1, 0), (2, 0), (3, 1), (3, 2), (4, 0), (5, 0), (6, 4), (6, 5), (7, 3), (7, 6)]
    );
    let doms = w.dom_rel().unwrap();
    let pdoms = w.pdom_rel();
    assert_eq!(
        w.factor_subgraphs(&doms, &pdoms),
        vec![(0, 3), (0, 6), (7, 0), (0, 7)]
    );

    let plain = read("sin(x) + y", &mut e);
    let p = Deriv::new(plain, &mut e, "x").unwrap();
    let doms = p.dom_rel().unwrap();
    let pdoms = p.pdom_rel();
    assert!(p.factor_subgraphs(&doms, &pdoms).is_empty());
}

#[test]
fn sort_by_distance_keeps_ties_in_order() {
    let pairs = vec![(9, 0), (4, 1), (1, 4), (3, 2), (2, 5), (5, 2), (0, 1), (7, 7), (6, 3)];
    assert_eq!(
        symdiff::factor::sort_by_distance(pairs),
        vec![(7, 7), (0, 1), (3, 2), (4, 1), (1, 4), (2, 5), (5, 2), (6, 3), (9, 0)]
    );
    assert!(symdiff::factor::is_not_after((3, 2), (4, 1)));
    assert!(!symdiff::factor::is_not_after((4, 1), (3, 2)));
    assert!(symdiff::factor::is_not_after((4, 1), (1, 4)));
    assert!(symdiff::factor::is_not_after((1, 4), (4, 1)));
    assert!(symdiff::factor::is_not_after((1, 4), (2, 5)));
    assert!(!symdiff::factor::is_not_after((2, 5), (1, 4)));
    assert_eq!(symdiff::factor::sort_by_distance(Vec::new()), Vec::new());
}

#[test]
fn shrink_folds_a_diamond_into_one_edge() {
    let mut e = Environment::new();
    let parsed = read("x * z / (x + y)", &mut e);
    let mut d = Deriv::new(parsed, &mut e, "x").unwrap();
    let at = [2.0, 3.0, 1.0];
    let before = evaluate(&d, &at);
    assert!(close(before, 1.0 / 3.0));
    let doms = d.dom_rel().unwrap();
    let pdoms = d.pdom_rel();
    assert_eq!(d.shrink((5, 0), &doms, &pdoms, &mut e), Ok(()));
    assert_eq!(edges(&d), vec![(2, 1), (4, 3), (5, 2), (5, 4), (5, 0)]);
    assert_eq!(back_edges(&d), sorted(edges(&d)));
    assert_eq!(d.graph[5][2].exp.print(&e), "1/x+y*z+-x*z/x+y^2");
    assert_eq!(d.size, 6);
    assert_eq!(d.leafs.len(), 3);
    assert!(close(evaluate(&d, &at), before));
    for p in [[0.7, 1.3, 2.1], [1.9, 0.4, 0.8], [-2.0, 5.0, 0.5]] {
        let mut f = Environment::new();
        let again = read("x * z / (x + y)", &mut f);
        let fresh = Deriv::new(again, &mut f, "x").unwrap();
        assert!(close(evaluate(&d, &p), evaluate(&fresh, &p)));
    }
}

#[test]
fn shrink_takes_out_the_edges_inside_the_pair() {
    let mut e = Environment::new();
    let parsed = read("sin(exp(x)) * cos(exp(x))", &mut e);
    let mut d = Deriv::new(parsed, &mut e, "x").unwrap();
    let at = [0.3];
    let before = evaluate(&d, &at);
    assert!(close(before, (2.0 * 0.3f64.exp()).cos() * 0.3f64.exp()));
    let doms = d.dom_rel().unwrap();
    let pdoms = d.pdom_rel();
    assert_eq!(d.shrink((4, 1), &doms, &pdoms, &mut e), Ok(()));
    assert_eq!(edges(&d), vec![(1, 0), (4, 1)]);
    assert_eq!(back_edges(&d), vec![(1, 0), (4, 1)]);
    assert!(close(evaluate(&d, &at), before));
    assert_eq!(d.dom_rel(), Err(Error::DominatorIntersection));
    assert_eq!(d.shrink((1, 4), &doms, &pdoms, &mut e), Ok(()));
    assert_eq!(edges(&d), vec![(1, 0), (4, 1)]);
    assert_eq!(d.graph[4][0].exp.print(&e), "cos(exp(x))^2+sin(exp(x))*-sin(exp(x))");
    assert!(close(evaluate(&d, &at), before));
}

#[test]
fn shrink_by_a_post_dominator_pair() {
    let mut e = Environment::new();
    let parsed = read("sin(exp(x)) * cos(exp(x))", &mut e);
    let mut d = Deriv::new(parsed, &mut e, "x").unwrap();
    let at = [0.3];
    let before = evaluate(&d, &at);
    let doms = d.dom_rel().unwrap();
    let pdoms = d.pdom_rel();
    assert_eq!(d.shrink((1, 4), &doms, &pdoms, &mut e), Ok(()));
    assert_eq!(edges(&d), vec![(1, 0), (4, 1)]);
    assert_eq!(back_edges(&d), vec![(1, 0), (4, 1)]);
    assert_eq!(d.graph[4][0].exp.print(&e), "cos(exp(x))^2+sin(exp(x))*-sin(exp(x))");
    assert!(close(evaluate(&d, &at), before));
}

#[test]
fn shrink_with_two_edges_between_the_same_nodes() {
    let mut e = Environment::new();
    let parsed = read("x ^ x", &mut e);
    let mut d = Deriv::new(parsed, &mut e, "x").unwrap();
    let at = [1.7];
    let before = evaluate(&d, &at);
    let doms = d.dom_rel().unwrap();
    let pdoms = d.pdom_rel();
    assert_eq!(d.factor_subgraphs(&doms, &pdoms), vec![(1, 0), (0, 1)]);
    assert_eq!(d.shrink((1, 0), &doms, &pdoms, &mut e), Ok(()));
    assert_eq!(edges(&d), vec![(1, 0)]);
    assert_eq!(back_edges(&d), vec![(1, 0)]);
    assert_eq!(d.graph[1][0].exp.print(&e), "x^x+log(x)*x^x");
    assert!(close(evaluate(&d, &at), before));
}

#[test]
fn shrink_lowers_the_number_of_edges() {
    for text in ["x * z / (x + y)", "sin(exp(x)) * cos(exp(x))", "x ^ x", "sin(x) * cos(x)"] {
        let mut e = Environment::new();
        let parsed = read(text, &mut e);
        let mut d = Deriv::new(parsed, &mut e, "x").unwrap();
        let doms = d.dom_rel().unwrap();
        let pdoms = d.pdom_rel();
        let first = d.factor_subgraphs(&doms, &pdoms)[0];
        let before = edges(&d).len();
        d.shrink(first, &doms, &pdoms, &mut e).unwrap();
        assert!(edges(&d).len() < before, "{}", text);
    }
}

#[test]
fn shrink_between_unconnected_nodes_adds_an_edge_of_zero() {
    let mut e = Environment::new();
    let parsed = read("x * z / (x + y)", &mut e);
    let mut d = Deriv::new(parsed, &mut e, "x").unwrap();
    let doms = d.dom_rel().unwrap();
    let pdoms = d.pdom_rel();
    let at = [2.0, 3.0, 1.0];
    let before = evaluate(&d, &at);
    assert_eq!(d.shrink((4, 1), &doms, &pdoms, &mut e), Ok(()));
    assert_eq!(edges(&d), vec![(2, 0), (2, 1), (4, 0), (4, 3), (4, 1), (5, 2), (5, 4)]);
    assert_eq!(d.graph[4][2].exp.print(&e), "0");
    assert!(close(evaluate(&d, &at), before));
}

#[test]
fn shrink_leaves_the_graph_alone_where_the_sum_does_not_reduce() {
    let mut e = Environment::new();
    let parsed = read("4294967296 * (4294967296 * x) + x", &mut e);
    let mut d = Deriv::new(parsed, &mut e, "x").unwrap();
    assert_eq!(d.size, 5);
    let before = edges(&d);
    assert_eq!(before, vec![(2, 0), (2, 1), (3, 0), (3, 2), (4, 3), (4, 1)]);
    let doms = d.dom_rel().unwrap();
    let pdoms = d.pdom_rel();
    assert_eq!(d.factor_subgraphs(&doms, &pdoms), vec![(3, 0), (4, 1), (4, 0)]);
    assert_eq!(d.shrink((4, 1), &doms, &pdoms, &mut e), Err(Error::Overflow));
    assert_eq!(edges(&d), before);
    assert_eq!(back_edges(&d), sorted(before));
}

#[test]
fn factoring_keeps_the_value() {
    let texts = [
        "x * z / (x + y)",
        "sin(x) * cos(x)",
        "sin(exp(x)) * cos(exp(x))",
        "x ^ x",
        "x * y + x * z",
        "(x + y) * (x + y) * (x + z)",
        "exp(sin(x) + cos(x)) / (sin(x) - cos(x))",
        "log(x * y) / tan(z - x) + exp(-x)",
        "(sin(x) * cos(x)) * (exp(x) + log(x))",
        "sin(x * y) * cos(x * y) + y * exp(x * y)",
        "sin(sin(sin(x) * cos(x)) * cos(sin(x) * cos(x))) * cos(sin(sin(x) * cos(x)) * cos(sin(x) * cos(x)))",
    ];
    let points: [[f64; 3]; 3] = [[2.0, 1.0, 3.0], [0.7, 1.3, 2.1], [1.9, 0.4, 0.8]];
    for text in texts {
        for by in ["x", "y"] {
            let mut e = Environment::new();
            for name in ["x", "y", "z"] {
                e.extend_var(String::from(name));
            }
            let parsed = read(text, &mut e);
            let plain = Deriv::new(parsed.clone(), &mut e, by).unwrap();
            let factored = Deriv::new(parsed, &mut e, by).unwrap().factor(&mut e).unwrap();
            assert!(edges(&factored).len() <= edges(&plain).len());
            assert_eq!(back_edges(&factored), sorted(edges(&factored)));
            for p in points.iter() {
                let a = evaluate(&plain, p);
                let b = evaluate(&factored, p);
                assert!(close(a, b), "{} by {} at {:?}: {} and {}", text, by, p, a, b);
            }
        }
    }
}

#[test]
fn factor_of_the_example() {
    let mut e = Environment::new();
    let parsed = read("x * z / (x + y)", &mut e);
    let d = Deriv::new(parsed, &mut e, "x").unwrap();
    let at = [2.0, 3.0, 1.0];
    assert!(close(evaluate(&d, &at), 1.0 / 3.0));
    let factored = d.factor(&mut e).unwrap();
    assert_eq!(edges(&factored), vec![(2, 1), (4, 3), (5, 2), (5, 4), (5, 0)]);
    assert!(close(evaluate(&factored, &at), 1.0 / 3.0));
}

#[test]
fn factor_reports_the_first_error() {
    let mut e = Environment::new();
    let parsed = read("4294967296 * (4294967296 * x) + x", &mut e);
    let d = Deriv::new(parsed, &mut e, "x").unwrap();
    assert_eq!(d.factor(&mut e).err(), Some(Error::Overflow));
    let other = read("sin(exp(x)) * cos(exp(x))", &mut e);
    let mut g = Deriv::new(other, &mut e, "x").unwrap();
    let doms = g.dom_rel().unwrap();
    let pdoms = g.pdom_rel();
    g.shrink((4, 1), &doms, &pdoms, &mut e).unwrap();
    assert_eq!(g.factor(&mut e).err(), Some(Error::DominatorIntersection));
}

#[test]
fn the_derivative_of_the_cotangent() {
    let mut e = Environment::new();
    let parsed = read("1 / tan(x)", &mut e);
    let at = [std::f64::consts::FRAC_PI_2];
    let symbolic = parsed.diff("x", &e).reduce(&e).unwrap();
    assert!(close(eval(&symbolic, &at), -1.0));
    let d = Deriv::new(parsed, &mut e, "x").unwrap();
    assert!(close(evaluate(&d, &at), -1.0));
    let factored = d.factor(&mut e).unwrap();
    assert!(close(evaluate(&factored, &at), -1.0));
}

#[test]
fn intersect_finds_the_nearest_shared_dominator() {
    let tree = vec![Some(5), Some(2), Some(5), Some(4), Some(5), Some(5)];
    assert_eq!(symdiff::dominance::intersect(0, 1, &tree), 5);
    assert_eq!(symdiff::dominance::intersect(1, 2, &tree), 2);
    assert_eq!(symdiff::dominance::intersect(3, 4, &tree), 4);
    assert_eq!(symdiff::dominance::intersect(3, 3, &tree), 3);
    assert_eq!(symdiff::dominance::intersect(5, 0, &tree), 5);
    let partly = vec![Some(2), Some(2), Some(4), None, Some(4)];
    assert_eq!(symdiff::dominance::intersect(0, 1, &partly), 2);
    assert_eq!(symdiff::dominance::intersect(1, 4, &partly), 4);
    assert_eq!(symdiff::dominance::intersect(3, 3, &partly), 3);
}

#[test]
fn post_order_numbers_operands_first() {
    let mut e = Environment::new();
    let parsed = read("x * z / (x + y)", &mut e);
    let mut nodes: Vec<Expr> = Vec::new();
    symdiff::postorder::post_index(&parsed, &mut nodes);
    let texts: Vec<String> = nodes.iter().map(|n| n.print(&e)).collect();
    assert_eq!(texts, vec!["x", "z", "x*z", "y", "x+y", "x*z/x+y"]);
    assert_eq!(symdiff::postorder::find(&nodes, &Expr::Var(Var::new(2))), Some(3));
    assert_eq!(symdiff::postorder::find(&nodes, &Expr::Var(Var::new(3))), None);
    symdiff::postorder::post_index(&parsed, &mut nodes);
    assert_eq!(nodes.len(), 6);
}

#[test]
fn many_diamonds_in_a_row_have_many_paths() {
    let mut text = String::from("x");
    for _ in 0..9 {
        text = format!("sin({0}) * cos({0})", text);
    }
    let mut e = Environment::new();
    let parsed = read(&text, &mut e);
    let d = Deriv::new(parsed.clone(), &mut e, "x").unwrap();
    assert_eq!(d.size, 28);
    assert_eq!(edges(&d).len(), 36);
    let mut prefix = Vec::new();
    let mut paths = Vec::new();
    d.collect_paths(d.root, 0, &mut prefix, &mut paths);
    assert_eq!(paths.len(), 512);
    assert!(paths.iter().all(|p| p.len() == 18));
    let at = [0.4];
    let plain = evaluate(&d, &at);
    assert!(close(plain, eval(&parsed.diff("x", &e), &at)));
    let mut d = d;
    let doms = d.dom_rel().unwrap();
    let pdoms = d.pdom_rel();
    let order = d.factor_subgraphs(&doms, &pdoms);
    assert_eq!(order.len(), 90);
    assert_eq!(order[0], (3, 0));
    d.shrink(order[0], &doms, &pdoms, &mut e).unwrap();
    assert_eq!(edges(&d).len(), 33);
    assert!(close(evaluate(&d, &at), plain));
}

#[test]
fn paths_are_listed_in_the_order_of_the_edges() {
    let mut e = Environment::new();
    let parsed = read("x * z / (x + y)", &mut e);
    let d = Deriv::new(parsed, &mut e, "x").unwrap();
    let mut prefix = Vec::new();
    let mut paths = Vec::new();
    d.collect_paths(5, 0, &mut prefix, &mut paths);
    assert_eq!(paths, vec![vec![(5, 0), (2, 0)], vec![(5, 1), (4, 0)]]);
    assert!(prefix.is_empty());
    let sum = d.sum_of_paths(&paths, &mut e);
    assert_eq!(sum.print(&e), "0+1*1/x+y*z+1*-x*z/x+y^2*1");
    let mut none = Vec::new();
    d.collect_paths(4, 1, &mut prefix, &mut none);
    assert!(none.is_empty());
    let mut same = Vec::new();
    d.collect_paths(3, 3, &mut prefix, &mut same);
    assert_eq!(same, vec![Vec::new()]);
    let doms = d.dom_rel().unwrap();
    let pdoms = d.pdom_rel();
    let marked = d.mark_paths((5, 0), &doms, &pdoms, &paths);
    assert_eq!(
        marked,
        vec![vec![], vec![], vec![true, false], vec![], vec![true, false], vec![false, false]]
    );
    assert!(d.is_interior((5, 0), &doms, &pdoms, (2, 0)));
    assert!(!d.is_interior((5, 0), &doms, &pdoms, (5, 0)));
}

#[test]
fn edges_are_added_and_removed_on_both_sides() {
    let mut e = Environment::new();
    let parsed = read("x * z / (x + y)", &mut e);
    let mut d = Deriv::new(parsed, &mut e, "x").unwrap();
    let seven = Expr::new_num(7, &mut e);
    d.add_edge(5, 1, seven.clone());
    assert_eq!(edges(&d), vec![(2, 0), (2, 1), (4, 0), (4, 3), (5, 2), (5, 4), (5, 1)]);
    assert_eq!(d.reverse_graph[1].len(), 2);
    assert_eq!(d.reverse_graph[1][1].to, 5);
    assert_eq!(d.reverse_graph[1][1].exp, seven);
    let gone = d.remove_edge(2, 1);
    assert_eq!(gone.to, 1);
    assert_eq!(gone.exp.print(&e), "x");
    assert_eq!(edges(&d), vec![(2, 0), (4, 0), (4, 3), (5, 2), (5, 4), (5, 1)]);
    assert_eq!(back_edges(&d), sorted(edges(&d)));
    assert_eq!(d.reverse_graph[1].len(), 1);
    assert_eq!(d.reverse_graph[1][0].exp, seven);
    let copy = d.graph[5][0].clone();
    assert_eq!(copy.to, 2);
    assert_eq!(copy.exp, d.graph[5][0].exp);
}
