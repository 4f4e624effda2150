use rust_solver::constraint::{Constraint, ConstraintBase};
use rust_solver::expr::{AExpr, Expr};
use rust_solver::extensional::ExtConstraint;
use rust_solver::formula::Formula;
use rust_solver::intensional::{ConstraintError, Intensional};
use rust_solver::pred::Pred;
use rust_solver::setdom::SetDom;
use rust_solver::truth::Truth;
use rust_solver::variable::{vv, ExVar, VValue};

fn pair(dx: Vec<i32>, dy: Vec<i32>) -> (ExVar<i32>, ExVar<i32>) {
    (ExVar::new("x".into(), SetDom::new(dx)), ExVar::new("y".into(), SetDom::new(dy)))
}

fn labels(vs: &[&ExVar<i32>]) -> Vec<String> {
    vs.iter().map(|v| v.label().clone()).collect()
}

/// The constraint `p(x, y)` over `[x, y]`, with the variables as its store.
fn binary(
    dx: Vec<i32>,
    dy: Vec<i32>,
    p: fn(Expr<i32>, Expr<i32>) -> Pred<Expr<i32>>,
) -> (Intensional<i32, Expr<i32>>, Vec<ExVar<i32>>) {
    let (x, y) = pair(dx, dy);
    let f = Formula::atom(p(Expr::var(&x), Expr::var(&y)));
    let c = Intensional::new(labels(&[&x, &y]), f).unwrap();
    (c, vec![x, y])
}

fn vval(l: &str, v: i32) -> VValue<i32> {
    VValue { label: l.into(), value: v }
}

#[test]
fn check_invalid_value_is_false() {
    let (c, vars) = binary(vec![1, 2], vec![1, 2], Pred::eq);
    let vv = vval("x", 3);

    assert_eq!(c.is_valid(&vars, &vv), Truth::False);
    assert_eq!(c.is_allowed(&vars, &vv), Truth::False);
}

#[test]
fn support_implies_valid() {
    let (c, vars) = binary(vec![1, 2], vec![1, 2], Pred::eq);
    let vv = vval("x", 1);

    assert_eq!(c.is_support(&vars, &vv), Truth::True);
    assert_eq!(c.is_valid(&vars, &vv), Truth::True);
}

#[test]
fn allowed_but_not_valid() {
    let (c, vars) = binary(vec![1, 2], vec![1, 2, 3], Pred::eq);
    let vv = vval("x", 3);

    assert_eq!(c.is_allowed(&vars, &vv), Truth::True);
    assert_eq!(c.is_valid(&vars, &vv), Truth::False);
    assert_eq!(c.strict_support(&vars, &vv), Truth::False);
}

#[test]
fn support_is_not_conflict() {
    let (c, vars) = binary(vec![1, 2], vec![1, 2], Pred::eq);
    let vv = vval("x", 1);

    assert_eq!(c.is_support(&vars, &vv), Truth::True);
    assert_eq!(c.is_conflicts(&vars, &vv), Truth::False);
}

#[test]
fn valid_but_conflict() {
    let (c, vars) = binary(vec![1, 2, 3], vec![1, 2, 3], Pred::lt);
    let vv = vval("x", 3);

    assert_eq!(c.is_valid(&vars, &vv), Truth::True);
    assert_eq!(c.is_support(&vars, &vv), Truth::False);
    assert_eq!(c.is_conflicts(&vars, &vv), Truth::True);
}

#[test]
fn allowed_but_conflict() {
    let (c, vars) = binary(vec![1], vec![1], Pred::neq);
    let vv = vval("x", 1);

    assert_eq!(c.is_allowed(&vars, &vv), Truth::False);
    assert_eq!(c.is_valid(&vars, &vv), Truth::True);
    assert_eq!(c.is_support(&vars, &vv), Truth::False);
    assert_eq!(c.is_conflicts(&vars, &vv), Truth::True);
}

#[test]
fn unknown_variable_truths() {
    let (c, vars) = binary(vec![1, 2], vec![1, 2], Pred::eq);
    let vv = vval("z", 1);

    assert_eq!(c.is_valid(&vars, &vv), Truth::Unknown);
    assert_eq!(c.is_allowed(&vars, &vv), Truth::Unknown);
    assert_eq!(c.is_support(&vars, &vv), Truth::Unknown);
    assert_eq!(c.is_conflicts(&vars, &vv), Truth::Unknown);
}

#[test]
fn unknown_propagation() {
    let (c, vars) = binary(vec![1, 2], vec![1, 2], Pred::eq);
    let vv = vval("z", 1);

    assert_eq!(c.is_valid(&vars, &vv), Truth::Unknown);
}

#[test]
fn eq_constraint_assignment() {
    let (c, _vars) = binary(vec![1, 2], vec![1, 2], Pred::eq);

    assert_eq!(c.check_assignment(&vec![vval("x", 1), vval("y", 1)]), Truth::True);
    assert_eq!(c.check_assignment(&vec![vval("x", 1), vval("y", 2)]), Truth::False);
    assert_eq!(c.check_assignment(&vec![vval("x", 1)]), Truth::Unknown);
}

#[test]
fn eq_constraint_strict_support() {
    let (c, vars) = binary(vec![1, 2], vec![1, 2], Pred::eq);

    assert_eq!(c.strict_support(&vars, &vval("x", 1)), Truth::True);
    assert_eq!(c.strict_support(&vars, &vval("x", 3)), Truth::False);
}

#[test]
fn neq_constraint_support() {
    let (c, vars) = binary(vec![1, 2], vec![1, 2], Pred::eq);

    assert_eq!(c.strict_support(&vars, &vval("x", 1)), Truth::True);
}

#[test]
fn lt_constraint_support() {
    let (c, vars) = binary(vec![1, 2, 3], vec![1, 2, 3], Pred::lt);

    assert_eq!(c.strict_support(&vars, &vval("x", 3)), Truth::False);
    assert_eq!(c.strict_support(&vars, &vval("x", 1)), Truth::True);
}

#[test]
fn lt_looseness() {
    let (c, vars) = binary(vec![1, 2, 3], vec![0, 1, 2, 3], Pred::lt);

    assert_eq!(c.rel(&vars).len(), 3);
    assert_eq!(c.is_valid(&vars, &vv("x".into(), 3)), Truth::True);
    assert_eq!(c.is_valid(&vars, &vv("y".into(), 0)), Truth::True);
    assert_eq!(c.is_support(&vars, &vv("x".into(), 3)), Truth::False);
    assert_eq!(c.is_support(&vars, &vv("x".into(), 1)), Truth::True);
    assert_eq!(c.is_support(&vars, &vv("y".into(), 1)), Truth::False);
    assert_eq!(c.is_support(&vars, &vv("y".into(), 2)), Truth::True);

    let (forbidden, total) = c.tightness(&vars);
    assert_eq!(forbidden as f64 / total as f64, 9. / 12.);
    assert_eq!(c.tightness(&vars), (9, 12));
    assert_eq!(c.looseness(&vars), (3, 12));
}

#[test]
fn constraint_entail() {
    let (c, vars) = binary(vec![1, 2], vec![3, 4], Pred::lt);
    assert_eq!(c.is_entailed(&vars), true);
    assert_eq!(c.is_disentailed(&vars), false);
}

#[test]
fn constraint_disentail() {
    let (c, vars) = binary(vec![3, 4], vec![1, 2], Pred::lt);
    assert_eq!(c.is_disentailed(&vars), true);
    assert_eq!(c.is_entailed(&vars), false);
}

#[test]
fn support_removed_by_trailing() {
    let (c, mut vars) = binary(vec![1, 2], vec![1, 2], Pred::lt);
    let vv = vv(vars[0].label().clone(), 1);

    assert_eq!(c.is_support(&vars, &vv), Truth::True);

    vars[1].dom_mut().remove_value(&2, 1).unwrap(); // y cannot be 2 anymore

    assert_eq!(c.is_support(&vars, &vv), Truth::False);
}

#[test]
fn formula_constraint_check() {
    let w = ExVar::new("w".into(), SetDom::new(vec![1, 2, 3, 4]));

    // w == 3
    let f = Formula::atom(Pred::eq(Expr::var(&w), Expr::cst(3)));
    let c = Intensional::new(labels(&[&w]), f).unwrap();

    let a = vec![vv(String::from("w"), 3)];
    assert_eq!(c.check_assignment(&a), Truth::True);

    let b = vec![vv(String::from("w"), 2)];
    assert_eq!(c.check_assignment(&b), Truth::False);
}

#[test]
fn intensional_scope_is_sorted_and_checked() {
    let (x, y) = pair(vec![1, 2], vec![1, 2]);
    let f = Formula::atom(Pred::lt(Expr::var(&y), Expr::var(&x)));
    let c = Intensional::new(labels(&[&y, &x, &y]), f).unwrap();
    assert_eq!(c.scp(), &vec!["x".to_string(), "y".to_string()]);
    assert_eq!(c.label(), "c_xy");
    let g = Formula::atom(Pred::lt(Expr::var(&y), Expr::var(&x)));
    assert!(matches!(Intensional::new(labels(&[&x]), g), Err(ConstraintError::ScopeMismatch)));
    let h: Intensional<i32, AExpr<i32>> =
        Intensional::from_pred(Pred::eq(AExpr::var(&y), AExpr::add(AExpr::var(&x), AExpr::cst(1))));
    assert_eq!(h.scp(), &vec!["x".to_string(), "y".to_string()]);
}

#[test]
fn rel_in_odometer_order() {
    let (c, vars) = binary(vec![1, 2, 3], vec![1, 2, 3], Pred::lt);
    let rel = c.rel(&vars);
    assert_eq!(
        rel,
        vec![
            vec![vval("x", 1), vval("y", 2)],
            vec![vval("x", 1), vval("y", 3)],
            vec![vval("x", 2), vval("y", 3)],
        ]
    );
    for t in &rel {
        assert_eq!(c.check_assignment(t), Truth::True);
    }
}

#[test]
fn support_asn_extends_partial_assignment() {
    let (c, vars) = binary(vec![1, 2], vec![1, 2], Pred::lt);
    assert_eq!(c.is_support_asn(&vars, &vec![vval("x", 1)]), Truth::True);
    assert_eq!(c.is_support_asn(&vars, &vec![vval("x", 2)]), Truth::False);
    assert_eq!(c.is_support_asn(&vars, &vec![vval("x", 5)]), Truth::False);
    assert_eq!(c.is_support_asn(&vars, &vec![vval("x", 1), vval("y", 2)]), Truth::True);
    assert_eq!(c.is_support_asn(&vars, &vec![vval("x", 1), vval("y", 1)]), Truth::False);
}

fn ext_xy(dom: Vec<i32>, tuples: Vec<Vec<VValue<i32>>>) -> (ExtConstraint<i32>, Vec<ExVar<i32>>) {
    let (x, y) = pair(dom.clone(), dom);
    let c = ExtConstraint::new(labels(&[&x, &y]), tuples).unwrap();
    (c, vec![x, y])
}

#[test]
fn ext_constraint_rel() {
    let (c, vars) = ext_xy(
        vec![1, 2, 3],
        vec![vec![vval("x", 1), vval("y", 1)], vec![vval("x", 2), vval("y", 3)]],
    );

    let rel = c.rel(&vars);

    assert!(rel.contains(&vec![vval("x", 1), vval("y", 1)]));
    assert!(!rel.contains(&vec![vval("x", 1), vval("y", 2)]));
}

#[test]
fn ext_constraint_support() {
    let (c, vars) = ext_xy(vec![1, 2], vec![vec![vval("x", 1), vval("y", 2)]]);

    assert_eq!(c.is_support(&vars, &VValue { label: "x".into(), value: 1 }), Truth::True);
    assert_eq!(c.is_support(&vars, &VValue { label: "y".into(), value: 1 }), Truth::False);
}

#[test]
fn ext_constraint_tightness() {
    let (c, vars) = ext_xy(vec![1, 2], vec![vec![vval("x", 1), vval("y", 1)]]);

    let (allowed, total) = c.looseness(&vars);
    let (forbidden, total2) = c.tightness(&vars);
    assert_eq!(allowed as f64 / total as f64, 0.25);
    assert_eq!(forbidden as f64 / total2 as f64, 0.75);
}

#[test]
fn ext_constraint_scope_mismatch() {
    let (x, y) = pair(vec![1, 2], vec![1, 2]);
    let r = ExtConstraint::new(labels(&[&x, &y]), vec![vec![vval("y", 1), vval("x", 1)]]);
    assert!(matches!(r, Err(ConstraintError::ScopeMismatch)));
    let ok = ExtConstraint::new(labels(&[&x, &y]), vec![vec![vval("x", 2), vval("y", 1)]]).unwrap();
    assert_eq!(ok.apply(&vec![vval("y", 1), vval("x", 2)]), true);
    assert_eq!(ok.apply(&vec![vval("x", 1), vval("y", 1)]), false);
}
