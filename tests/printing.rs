use rust_solver::constraint::ConstraintBase;
use rust_solver::csp::Csp;
use rust_solver::expr::{AExpr, Eval, Expr};
use rust_solver::extensional::ExtConstraint;
use rust_solver::formula::{print_formula, Formula};
use rust_solver::gac::Arc;
use rust_solver::intensional::Intensional;
use rust_solver::pred::{print_predicate, Pred};
use rust_solver::setdom::{ExDom, SetDom};
use rust_solver::variable::{vv, ExVar};

#[test]
fn print_domains_and_values() {
    let mut d = SetDom::new(vec![1, 2, 3]);
    d.remove_value(&2, 1).unwrap();
    assert_eq!(d.print(), "{1,2,3,}");
    assert_eq!(ExDom::new(vec![4, 5]).print(), "{4,5,}");
    assert_eq!(vv("x".to_string(), 7).print(), "(x, 7)");
    let x = ExVar::new("x".to_string(), d);
    assert_eq!(x.print(), "x : [1, 3]");
    let a = Arc { constraint: 2, variable: "y".to_string() };
    assert_eq!(a.print(), "(2, y)");
}

#[test]
fn print_expressions() {
    let e: AExpr<i32> = AExpr::add(AExpr::Base(Expr::Var("z".to_string())), AExpr::cst(1));
    assert_eq!(e.print(), "z + 1");
    let p = Pred::neq(Expr::Var("x".to_string()), Expr::cst(3));
    assert_eq!(print_predicate(&p), "x <> 3");
    let f = Formula::or(vec![
        Formula::atom(Pred::lt(Expr::Var("x".to_string()), Expr::Var("y".to_string()))),
        Formula::not(Formula::atom(Pred::ge(Expr::Var("y".to_string()), Expr::cst(2)))),
    ]);
    assert_eq!(print_formula(&f), "|| x < y|| ! y >= 2");
}

#[test]
fn print_constraints_and_csp() {
    let d = SetDom::new(vec![1, 2]);
    let vars = vec![ExVar::new("x".to_string(), d.snapshot()), ExVar::new("y".to_string(), d)];
    let c = ExtConstraint::new(
        vec!["x".to_string(), "y".to_string()],
        vec![vec![vv("x".to_string(), 1), vv("y".to_string(), 2)]],
    )
    .unwrap();
    assert_eq!(c.print(), "{  [(x, 1)(y, 2)],\n}");
    let i: Intensional<i32, Expr<i32>> =
        Intensional::from_pred(Pred::eq(Expr::Var("x".to_string()), Expr::Var("y".to_string())));
    assert_eq!(i.print(), "x == y");
    let csp = Csp::new(vars, vec![i]).unwrap();
    assert_eq!(
        csp.print(),
        "csp {\n   variable {\n        x : [1, 2]\n        y : [1, 2]\n   }\n   constraint {\n      x == y\n   }\n}"
    );
}
