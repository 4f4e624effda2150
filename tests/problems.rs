use rust_solver::constraint::{Constraint, ConstraintBase};
use rust_solver::csp::{Csp, CspError};
use rust_solver::expr::{AExpr, Expr};
use rust_solver::extensional::ExtConstraint;
use rust_solver::formula::Formula;
use rust_solver::gac::enforce_gac;
use rust_solver::intensional::Intensional;
use rust_solver::pred::Pred;
use rust_solver::setdom::SetDom;
use rust_solver::truth::Truth;
use rust_solver::variable::{generate_variables, vv, ExVar};

type C = Intensional<i32, Expr<i32>>;

fn vars3(dom: Vec<i32>) -> Vec<ExVar<i32>> {
    let d = SetDom::new(dom);
    vec![
        ExVar::new("x".into(), d.snapshot()),
        ExVar::new("y".into(), d.snapshot()),
        ExVar::new("z".into(), d),
    ]
}

fn x(l: &str) -> Expr<i32> {
    Expr::Var(l.to_string())
}

fn setup_csp() -> Csp<i32, C> {
    // x == y, y < z, x < z
    let c1 = Intensional::new(vec!["x".into(), "y".into()], Formula::atom(Pred::eq(x("x"), x("y")))).unwrap();
    let c2 = Intensional::new(vec!["y".into(), "z".into()], Formula::atom(Pred::lt(x("y"), x("z")))).unwrap();
    let c3 = Intensional::new(vec!["x".into(), "z".into()], Formula::atom(Pred::lt(x("x"), x("z")))).unwrap();
    Csp::new(vars3(vec![1, 2]), vec![c1, c2, c3]).unwrap()
}

#[test]
fn normalized_csp() {
    let c1 = Intensional::from_pred(Pred::eq(x("x"), x("y")));
    let c2 = Intensional::from_pred(Pred::lt(x("x"), x("y")));
    let csp = Csp::new(vars3(vec![1, 2]), vec![c1, c2]).unwrap();
    assert!(!csp.is_normalized());
}

#[test]
fn non_normalized_same_scope() {
    let c1 = Intensional::from_pred(Pred::eq(x("x"), x("y")));
    let c2 = Intensional::from_pred(Pred::neq(x("x"), x("y")));
    let csp = Csp::new(vars3(vec![1, 2]), vec![c1, c2]).unwrap();
    assert!(!csp.is_normalized());
}

#[test]
fn non_normalized_scope_order_irrelevant() {
    let c1 = Intensional::from_pred(Pred::eq(x("x"), x("y")));
    let c2 = Intensional::from_pred(Pred::lt(x("y"), x("x")));
    let csp = Csp::new(vars3(vec![1, 2]), vec![c1, c2]).unwrap();
    assert!(!csp.is_normalized());
}

#[test]
fn normalization_scenario() {
    let c1 = ExtConstraint::new(vec!["x".into(), "y".into()], vec![]).unwrap();
    let c2 = ExtConstraint::new(vec!["y".into(), "x".into()], vec![]).unwrap();
    let c3 = ExtConstraint::new(vec!["x".into(), "z".into()], vec![]).unwrap();
    let csp: Csp<i32, ExtConstraint<i32>> = Csp::new(vars3(vec![1, 2]), vec![c1, c2, c3]).unwrap();
    assert!(!csp.is_normalized());
    let d1 = ExtConstraint::new(vec!["x".into(), "y".into()], vec![]).unwrap();
    let d2 = ExtConstraint::new(vec!["x".into(), "z".into()], vec![]).unwrap();
    let ok: Csp<i32, ExtConstraint<i32>> = Csp::new(vars3(vec![1, 2]), vec![d1, d2]).unwrap();
    assert!(ok.is_normalized());
}

#[test]
fn hypergraph_density_binary() {
    let c1 = Intensional::from_pred(Pred::eq(x("x"), x("y")));
    let c2 = Intensional::from_pred(Pred::neq(x("y"), x("z")));
    let csp = Csp::new(vars3(vec![1, 2]), vec![c1, c2]).unwrap();
    let d = csp.e() as f64 / statrs::function::factorial::binomial(csp.n() as u64, csp.r() as u64);

    let expected = 2.0 / 3.0;
    assert!((d - expected).abs() < 1e-9);
}

#[test]
fn csp_metrics() {
    let mut csp = setup_csp();
    assert_eq!(csp.n(), 3);
    assert_eq!(csp.e(), 3);
    assert_eq!(csp.d(), 2);
    assert_eq!(csp.r(), 2);
    assert_eq!(csp.level(), 0);
    assert!(csp.past().is_empty());
    csp.remove_values(0, &vec![1], 0);
    assert_eq!(csp.vars()[0].valid_values(), vec![2]);
}

#[test]
fn csp_construction_errors() {
    let c1: C = Intensional::from_pred(Pred::eq(x("x"), x("w")));
    assert!(matches!(Csp::new(vars3(vec![1, 2]), vec![c1]), Err(CspError::UnknownVariable)));
    let mut dup = vars3(vec![1, 2]);
    dup.push(ExVar::new("x".into(), SetDom::new(vec![1])));
    let none: Vec<C> = vec![];
    assert!(matches!(Csp::new(dup, none), Err(CspError::DuplicateLabel)));
}

#[test]
fn cover_empty_assignment() {
    let csp = setup_csp();
    let covered = csp.cover(&vec![]);
    assert_eq!(covered.len(), 0);
}

#[test]
fn cover_partial_assignment() {
    let csp = setup_csp();
    let asn = vec![vv("x".to_string(), 1)];
    let covered = csp.cover(&asn);

    assert_eq!(covered.len(), 0); // no constraint fully covered
}

#[test]
fn cover_xy_assignment() {
    let csp = setup_csp();
    let asn = vec![vv("x".to_string(), 1), vv("y".to_string(), 2)];
    let covered = csp.cover(&asn);

    assert_eq!(covered.len(), 1);
    assert_eq!(csp.constraints()[covered[0]].scp().len(), 2);
}

#[test]
fn cover_yz_assignment() {
    let csp = setup_csp();
    let asn = vec![vv("y".to_string(), 1), vv("z".to_string(), 2)];
    let covered = csp.cover(&asn);

    assert_eq!(covered.len(), 1);
}

#[test]
fn cover_full_assignment() {
    let csp = setup_csp();
    let asn = vec![vv("x".to_string(), 1), vv("y".to_string(), 1), vv("z".to_string(), 2)];
    let covered = csp.cover(&asn);

    assert_eq!(covered.len(), 3);
}

#[test]
fn cover_is_sound() {
    let csp = setup_csp();
    let asn = vec![vv("x".to_string(), 1), vv("y".to_string(), 2)];

    for i in csp.cover(&asn) {
        for v in csp.constraints()[i].scp() {
            assert!(asn.iter().any(|vv| vv.label == *v));
        }
    }
}

#[test]
fn stand_alone() {
    let mut csp = setup_csp();
    let events: Vec<String> = csp.vars().iter().map(|v| v.label().clone()).collect();
    assert!(enforce_gac(&mut csp, &events));
    // x == y, x < z, y < z over {1, 2}: x = y = 1, z = 2
    assert_eq!(csp.vars()[0].valid_values(), vec![1]);
    assert_eq!(csp.vars()[1].valid_values(), vec![1]);
    assert_eq!(csp.vars()[2].valid_values(), vec![2]);
}

#[test]
fn gac_wipeout_returns_false() {
    // x < y, y < x
    let c1 = Intensional::new(vec!["x".into(), "y".into()], Formula::atom(Pred::lt(x("x"), x("y")))).unwrap();
    let c2 = Intensional::new(vec!["x".into(), "y".into()], Formula::atom(Pred::lt(x("y"), x("x")))).unwrap();
    let mut csp = Csp::new(vars3(vec![1, 2]), vec![c1, c2]).unwrap();
    let events = vec!["x".to_string(), "y".to_string()];
    assert!(!enforce_gac(&mut csp, &events));
    assert!(csp.vars().iter().any(|v| v.valid_size() == 0));
}

#[test]
fn domino_example() {
    let d = SetDom::new(vec![0, 1, 2, 3]);
    let vars = vec![
        ExVar::new("w".into(), d.snapshot()),
        ExVar::new("x".into(), d.snapshot()),
        ExVar::new("y".into(), d.snapshot()),
        ExVar::new("z".into(), d),
    ];
    let a = |l: &str| AExpr::Base(Expr::Var(l.to_string()));
    let eq = |l: &str, r: &str| Intensional::new(
        vec![l.to_string(), r.to_string()],
        Formula::atom(Pred::eq(a(l), a(r))),
    ).unwrap();
    let c1 = eq("w", "x");
    let c2 = eq("x", "y");
    let c3 = eq("y", "z");
    // (w == z + 1) OR (w == z AND w == 3)
    let c4 = Intensional::new(
        vec!["w".to_string(), "z".to_string()],
        Formula::or(vec![
            Formula::atom(Pred::eq(a("w"), AExpr::add(a("z"), AExpr::cst(1)))),
            Formula::and(vec![
                Formula::atom(Pred::eq(a("w"), a("z"))),
                Formula::atom(Pred::eq(a("w"), AExpr::cst(3))),
            ]),
        ]),
    ).unwrap();
    let mut csp = Csp::new(vars, vec![c1, c2, c3, c4]).unwrap();
    let events: Vec<String> = csp.vars().iter().map(|v| v.label().clone()).collect();
    assert!(enforce_gac(&mut csp, &events));
    // every remaining value has a support in every constraint on its variable
    for c in csp.constraints() {
        for l in c.scp() {
            let var = csp.vars().iter().find(|v| v.label() == l).unwrap();
            assert!(var.valid_size() > 0);
            for v in var.valid_values() {
                assert_eq!(c.is_support(csp.vars(), &vv(l.clone(), v)), Truth::True);
            }
        }
    }
}

#[test]
fn color_constraints() {
    let dom_color = SetDom::new(vec![0, 1, 2, 3]);
    let vmap = generate_variables("x", 9, &dom_color);
    let pairs = [
        (1, 3), (1, 4), (1, 7), (1, 2), (2, 7), (2, 8), (2, 9), (3, 4), (3, 5), (3, 6),
        (4, 5), (4, 7), (5, 6), (5, 7), (5, 8), (6, 8), (6, 9), (7, 8), (8, 9),
    ];
    let cs: Vec<C> = pairs
        .iter()
        .map(|(i, j)| Intensional::from_pred(Pred::neq(x(&format!("x{}", i)), x(&format!("x{}", j)))))
        .collect();
    let p_init = Csp::new(vmap, cs).unwrap();
    println!("n: {}, e: {}, d: {}, r: {}.", p_init.n(), p_init.e(), p_init.d(), p_init.r());
    assert_eq!((p_init.n(), p_init.e(), p_init.d(), p_init.r()), (9, 19, 4, 2));
}
