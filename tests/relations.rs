use rust_solver::constraint::Constraint;
use rust_solver::expr::Expr;
use rust_solver::intensional::Intensional;
use rust_solver::pred::Pred;
use rust_solver::setdom::SetDom;
use rust_solver::variable::{ExVar, VValue};

fn xy(dom: &SetDom<i32>) -> Vec<ExVar<i32>> {
    vec![ExVar::new(String::from("x"), dom.snapshot()), ExVar::new(String::from("y"), dom.snapshot())]
}

fn pv(l: &str, v: i32) -> VValue<i32> {
    VValue { label: l.to_string(), value: v }
}

#[test]
fn eq_constraint_rel() {
    let vars = xy(&SetDom::new(vec![1, 2, 3]));
    let c = Intensional::from_pred(Pred::eq(Expr::var(&vars[0]), Expr::var(&vars[1])));
    let rel = c.rel(&vars);

    assert_eq!(rel.len(), 3);
    assert!(rel.contains(&vec![pv("x", 1), pv("y", 1)]));
    assert!(!rel.contains(&vec![pv("x", 1), pv("y", 2)]));
}

#[test]
fn lt_constraint_rel() {
    let vars = xy(&SetDom::new(vec![1, 2, 3]));
    let c = Intensional::from_pred(Pred::lt(Expr::var(&vars[0]), Expr::var(&vars[1])));
    let rel = c.rel(&vars);

    assert_eq!(rel.len(), 3);
    assert!(rel.contains(&vec![pv("x", 1), pv("y", 3)]));
    assert!(!rel.contains(&vec![pv("x", 2), pv("y", 2)]));
}

#[test]
fn cartesian_respects_trailing() {
    let mut d = SetDom::new(vec![1, 2]);
    d.remove_value(&2, 1).unwrap();

    let vars = xy(&d);
    let c = Intensional::from_pred(Pred::eq(Expr::var(&vars[0]), Expr::var(&vars[1])));
    let rel = c.rel(&vars);

    assert_eq!(rel.len(), 1);
    assert_eq!(rel[0][0].value, 1);
}
