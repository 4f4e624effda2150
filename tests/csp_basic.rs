use rust_solver::constraint::{Constraint, ConstraintBase};
use rust_solver::csp::Csp;
use rust_solver::expr::Expr;
use rust_solver::intensional::Intensional;
use rust_solver::pred::Pred;
use rust_solver::setdom::SetDom;
use rust_solver::truth::Truth;
use rust_solver::variable::{vv, ExVar};

fn v(l: &str) -> Expr<i32> {
    Expr::Var(l.to_string())
}

fn book_csp() -> Csp<i32, Intensional<i32, Expr<i32>>> {
    let dom012 = SetDom::new(vec![0, 1, 2]);
    let vars = vec![
        ExVar::new(String::from("x"), dom012.snapshot()),
        ExVar::new(String::from("y"), dom012.snapshot()),
        ExVar::new(String::from("z"), dom012.snapshot()),
    ];
    Csp::new(
        vars,
        vec![
            Intensional::from_pred(Pred::eq(v("x"), v("y"))),
            Intensional::from_pred(Pred::lt(v("x"), v("z"))),
            Intensional::from_pred(Pred::neq(v("y"), v("z"))),
        ],
    )
    .unwrap()
}

#[test]
fn test_lc_and_solution() {
    let p_init = book_csp();
    let c = p_init.constraints();
    let vars = p_init.vars();

    let ixy = vec![vv(String::from("x"), 1), vv(String::from("y"), 0)];
    assert_eq!(p_init.is_locally_consistent(&ixy), Truth::False);
    assert_eq!(c[0].is_support_asn(vars, &ixy), c[0].is_support_asn_rel(vars, &ixy));
    assert_eq!(c[0].is_support_asn(vars, &ixy), Truth::False);
    assert_eq!(p_init.is_solution(&ixy), Truth::False);

    let ixy_lc = vec![vv(String::from("x"), 1), vv(String::from("y"), 1)];
    assert_eq!(p_init.is_locally_consistent(&ixy_lc), Truth::True);
    assert_eq!(c[0].is_support_asn(vars, &ixy_lc), c[0].is_support_asn_rel(vars, &ixy_lc));
    assert_eq!(c[0].is_support_asn(vars, &ixy_lc), Truth::True);
    assert_eq!(p_init.is_solution(&ixy_lc), Truth::False);

    let ixyz = vec![vv(String::from("x"), 1), vv(String::from("y"), 1), vv(String::from("z"), 0)];
    assert_eq!(p_init.is_locally_consistent(&ixyz), Truth::False);
    assert_eq!(c[1].is_support_asn(vars, &ixyz), c[1].is_support_asn_rel(vars, &ixyz));
    assert_eq!(c[1].is_support_asn(vars, &ixyz), Truth::False);
    assert_eq!(p_init.is_solution(&ixyz), Truth::False);

    let ixyz_lc = vec![vv(String::from("x"), 1), vv(String::from("y"), 1), vv(String::from("z"), 2)];
    assert_eq!(p_init.is_locally_consistent(&ixyz_lc), Truth::True);
    assert_eq!(c[0].is_support_asn(vars, &ixyz_lc), c[0].is_support_asn_rel(vars, &ixyz_lc));
    assert_eq!(c[0].is_support_asn(vars, &ixyz_lc), Truth::True);
    assert_eq!(c[1].is_support_asn(vars, &ixyz_lc), c[1].is_support_asn_rel(vars, &ixyz_lc));
    assert_eq!(c[1].is_support_asn(vars, &ixyz_lc), Truth::True);
    assert_eq!(c[2].is_support_asn(vars, &ixyz_lc), c[2].is_support_asn_rel(vars, &ixyz_lc));
    assert_eq!(c[2].is_support_asn(vars, &ixyz_lc), Truth::True);
    assert_eq!(p_init.is_solution(&ixyz_lc), Truth::True);

    assert_eq!(p_init.is_globally_consistent(&ixy), Truth::False);
    assert_eq!(p_init.is_globally_consistent(&ixy_lc), Truth::True);
    let iyz_lc = vec![vv(String::from("y"), 2), vv(String::from("z"), 1)];
    assert_eq!(p_init.is_locally_consistent(&iyz_lc), Truth::True);
    assert_eq!(p_init.is_globally_consistent(&iyz_lc), Truth::False);
    let ix_lc = vec![vv(String::from("x"), 2)];
    assert_eq!(p_init.is_globally_consistent(&ix_lc), Truth::False);
}

fn small_csp() -> Csp<i32, Intensional<i32, Expr<i32>>> {
    let dom = SetDom::new(vec![1, 2]);
    let vars = vec![
        ExVar::new("x".into(), dom.snapshot()),
        ExVar::new("y".into(), dom.snapshot()),
        ExVar::new("z".into(), dom.snapshot()),
    ];
    // x = y, y < z
    let c1 = Intensional::from_pred(Pred::eq(v("x"), v("y")));
    let c2 = Intensional::from_pred(Pred::lt(v("y"), v("z")));
    Csp::new(vars, vec![c1, c2]).unwrap()
}

#[test]
fn csp_local_consistency() {
    let csp = small_csp();

    for c in csp.constraints() {
        for l in c.scp() {
            let var = csp.vars().iter().find(|x| x.label() == l).unwrap();
            for a in var.dom().iter_on_active() {
                let t = c.is_support(csp.vars(), &vv(l.clone(), a));
                assert_ne!(t, Truth::Unknown);
            }
        }
    }
}

#[test]
fn csp_is_normalized() {
    let csp = small_csp();
    assert!(csp.is_normalized());
}

#[test]
fn rel_matches_support() {
    let csp = small_csp();

    for c in csp.constraints() {
        let rel = c.rel(csp.vars());
        for tuple in rel {
            assert_eq!(c.check_assignment(&tuple), Truth::True);
        }
    }
}

#[test]
fn trailing_preserves_consistency() {
    let dom = SetDom::new(vec![1, 2]);
    let mut vars = vec![ExVar::new("x".into(), dom.snapshot()), ExVar::new("y".into(), dom.snapshot())];
    let c = Intensional::from_pred(Pred::eq(v("x"), v("y")));

    assert_eq!(c.is_support(&vars, &vv("x".into(), 1)), Truth::True);

    vars[0].dom_mut().remove_value(&1, 1).unwrap();
    assert_eq!(c.is_support(&vars, &vv("x".into(), 1)), Truth::False);
}
