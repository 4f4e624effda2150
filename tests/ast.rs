use rust_solver::expr::{AExpr, Eval, Expr};
use rust_solver::formula::{eval_formula, Formula};
use rust_solver::pred::Pred;
use rust_solver::setdom::SetDom;
use rust_solver::truth::Truth;
use rust_solver::variable::{vv, ExVar};

fn setup_vars() -> (ExVar<i32>, ExVar<i32>) {
    let dom = SetDom::new(vec![1, 2, 3, 4]);
    let w = ExVar::new("w".into(), dom.snapshot());
    let z = ExVar::new("z".into(), dom);
    (w, z)
}

#[test]
fn expr_building() {
    let (_, z) = setup_vars();
    let e = AExpr::add(AExpr::var(&z), AExpr::cst(1));
    match e {
        AExpr::Add(_, _) => {}
        _ => panic!("Expected Add expression"),
    }
}

#[test]
fn collect_scope_expr() {
    let dom = SetDom::new(vec![1, 2, 3]);
    let x = ExVar::new(String::from("x"), dom.snapshot());
    let y = ExVar::new(String::from("y"), dom.snapshot());

    let e = AExpr::Add(Box::new(AExpr::var(&x)), Box::new(AExpr::var(&y)));

    let mut acc: Vec<String> = Vec::new();
    e.collect_vars(&mut acc);

    assert_eq!(acc.len(), 2);
    assert!(acc.contains(x.label()));
    assert!(acc.contains(y.label()));
}

#[test]
fn collect_scope_sorted_without_repeats() {
    let dom = SetDom::new(vec![1, 2, 3]);
    let x = ExVar::new(String::from("x"), dom.snapshot());
    let y = ExVar::new(String::from("y"), dom.snapshot());
    let e = AExpr::add(AExpr::var(&y), AExpr::mul(AExpr::var(&x), AExpr::var(&y)));
    let mut acc: Vec<String> = Vec::new();
    e.collect_vars(&mut acc);
    assert_eq!(acc, vec!["x".to_string(), "y".to_string()]);
}

#[test]
fn arith_eval_values() {
    let e: AExpr<i32> = AExpr::sub(AExpr::mul(AExpr::cst(3), AExpr::Base(Expr::Var("a".to_string()))), AExpr::cst(4));
    assert_eq!(e.eval(&vec![vv("a".to_string(), 5)]), Some(11));
    assert_eq!(e.eval(&vec![]), None);
    let big: AExpr<i32> = AExpr::add(AExpr::cst(i32::MAX), AExpr::cst(1));
    assert_eq!(big.eval(&vec![]), Some(i32::MIN));
}

#[test]
fn formula_building() {
    let (w, z) = setup_vars();
    let f = Formula::or(vec![
        Formula::atom(Pred::eq(AExpr::var(&w), AExpr::cst(3))),
        Formula::atom(Pred::eq(AExpr::var(&w), AExpr::add(AExpr::var(&z), AExpr::cst(1)))),
    ]);
    match f {
        Formula::Or(fs) => assert_eq!(fs.len(), 2),
        _ => panic!("Expected Or formula"),
    }
}

#[test]
fn formula_eval() {
    let (w, z) = setup_vars();
    // (w == z + 1) or (w == 3)
    let f = Formula::or(vec![
        Formula::atom(Pred::eq(AExpr::var(&w), AExpr::add(AExpr::var(&z), AExpr::cst(1)))),
        Formula::atom(Pred::eq(AExpr::var(&w), AExpr::cst(3))),
    ]);

    let a1 = vec![vv(String::from("w"), 2), vv(String::from("z"), 1)];
    assert_eq!(eval_formula(&f, &a1), Truth::True);

    let a2 = vec![vv(String::from("w"), 3), vv(String::from("z"), 1)];
    assert_eq!(eval_formula(&f, &a2), Truth::True);

    let a3 = vec![vv(String::from("w"), 1), vv(String::from("z"), 1)];
    assert_eq!(eval_formula(&f, &a3), Truth::False);
}

#[test]
fn formula_macro() {
    let dom = SetDom::new(vec![1, 2, 3, 4]);
    let w = ExVar::new(String::from("w"), dom.snapshot());
    let z = ExVar::new(String::from("z"), dom);
    let f = Formula::or(vec![
        Formula::atom(Pred::eq(AExpr::var(&w), AExpr::add(AExpr::var(&z), AExpr::cst(1)))),
        Formula::atom(Pred::eq(AExpr::var(&w), AExpr::cst(3))),
    ]);
    assert_eq!(eval_formula(&f, &vec![vv(String::from("w"), 3)]), Truth::True);
}

#[test]
fn formula_three_valued() {
    let x = ExVar::new(String::from("x"), SetDom::new(vec![1, 2, 3]));
    let p = Pred::eq(Expr::var(&x), Expr::cst(1));
    assert_eq!(p.eval(&vec![]), Truth::Unknown);
    assert_eq!(p.eval(&vec![vv("x".to_string(), 1)]), Truth::True);
    assert_eq!(p.eval(&vec![vv("x".to_string(), 2)]), Truth::False);

    let f = Formula::or(vec![
        Formula::atom(Pred::eq(Expr::var(&x), Expr::cst(1))),
        Formula::atom(Pred::eq(Expr::var(&x), Expr::cst(2))),
    ]);
    assert_eq!(eval_formula(&f, &vec![vv("x".to_string(), 2)]), Truth::True);
    assert_eq!(eval_formula(&f, &vec![]), Truth::Unknown);
    assert_eq!(eval_formula(&f, &vec![vv("x".to_string(), 3)]), Truth::False);

    let n = Formula::not(Formula::atom(Pred::lt(Expr::var(&x), Expr::cst(2))));
    assert_eq!(eval_formula(&n, &vec![vv("x".to_string(), 1)]), Truth::False);
    assert_eq!(eval_formula(&n, &vec![]), Truth::Unknown);
    let a: Formula<Expr<i32>> = Formula::and(vec![]);
    assert_eq!(eval_formula(&a, &vec![]), Truth::True);
}

#[test]
fn pred_building() {
    let (w, _) = setup_vars();
    let p = Pred::eq(Expr::var(&w), Expr::cst(3));
    match p {
        Pred::Eq(_, _) => {}
        _ => panic!("Expected Eq predicate"),
    }
}

#[test]
fn pred_eval_true() {
    let x = ExVar::new(String::from("x"), SetDom::new(vec![1, 2]));
    let asn = vec![vv(String::from("x"), 1)];

    let p = Pred::Eq(Expr::var(&x), Expr::Const(1));

    assert_eq!(p.eval(&asn), Truth::True);
}

#[test]
fn pred_eval_false() {
    let x = ExVar::new(String::from("x"), SetDom::new(vec![1, 2]));
    let asn = vec![vv(String::from("x"), 2)];

    let p = Pred::Eq(Expr::var(&x), Expr::Const(1));

    assert_eq!(p.eval(&asn), Truth::False);
}

#[test]
fn pred_eval_unknown() {
    let x = ExVar::new(String::from("x"), SetDom::new(vec![1, 2]));
    let asn = vec![];

    let p = Pred::Eq(Expr::var(&x), Expr::Const(1));

    assert_eq!(p.eval(&asn), Truth::Unknown);
}

fn x_plus_one_eq_y() -> Pred<AExpr<i32>> {
    let dom = SetDom::new(vec![0, 1, 2, 3]);
    let x = ExVar::new(String::from("x"), dom.snapshot());
    let y = ExVar::new(String::from("y"), dom);
    Pred::Eq(
        AExpr::Add(Box::new(AExpr::Base(Expr::var(&x))), Box::new(AExpr::Base(Expr::Const(1)))),
        AExpr::Base(Expr::var(&y)),
    )
}

#[test]
fn pred_arith_true() {
    let expr = x_plus_one_eq_y();
    let asn = vec![vv(String::from("x"), 1), vv(String::from("y"), 2)];
    assert_eq!(expr.eval(&asn), Truth::True);
}

#[test]
fn pred_arith_false() {
    let expr = x_plus_one_eq_y();
    let asn = vec![vv(String::from("x"), 1), vv(String::from("y"), 3)];
    assert_eq!(expr.eval(&asn), Truth::False);
}

#[test]
fn pred_arith_unknown() {
    let expr = x_plus_one_eq_y();
    let asn = vec![vv(String::from("x"), 1)];
    assert_eq!(expr.eval(&asn), Truth::Unknown)
}

#[test]
fn pred_orders() {
    let asn = vec![vv("a".to_string(), 2), vv("b".to_string(), 3)];
    let a = || Expr::Var("a".to_string());
    let b = || Expr::Var("b".to_string());
    assert_eq!(Pred::neq(a(), b()).eval(&asn), Truth::True);
    assert_eq!(Pred::le(a(), b()).eval(&asn), Truth::True);
    assert_eq!(Pred::gt(a(), b()).eval(&asn), Truth::False);
    assert_eq!(Pred::ge(b(), b()).eval(&asn), Truth::True);
    assert_eq!(Pred::lt(b(), a()).eval(&asn), Truth::False);
}
