use petgraph::graph::UnGraph;
use rust_solver::csp::Csp;
use rust_solver::expr::Expr;
use rust_solver::intensional::Intensional;
use rust_solver::pred::Pred;
use rust_solver::setdom::SetDom;
use rust_solver::variable::{generate_variables, ExVar};

fn v(l: &str) -> Expr<i32> {
    Expr::Var(l.to_string())
}

fn book() -> Csp<i32, Intensional<i32, Expr<i32>>> {
    let d = SetDom::new(vec![0, 1, 2]);
    let vars = vec![
        ExVar::new("x".to_string(), d.snapshot()),
        ExVar::new("y".to_string(), d.snapshot()),
        ExVar::new("z".to_string(), d),
    ];
    Csp::new(
        vars,
        vec![
            Intensional::from_pred(Pred::eq(v("x"), v("y"))),
            Intensional::from_pred(Pred::lt(v("x"), v("z"))),
            Intensional::from_pred(Pred::neq(v("x"), v("z"))),
        ],
    )
    .unwrap()
}

fn edges(g: &UnGraph<String, String>) -> Vec<(usize, usize, String)> {
    g.raw_edges().iter().map(|e| (e.source().index(), e.target().index(), e.weight.clone())).collect()
}

#[test]
fn test_graphs() {
    let p_init = book();
    println!("n: {}, e: {}, d: {}, r: {}.", p_init.n(), p_init.e(), p_init.d(), p_init.r());

    let primal_graph = p_init.primal_graph();
    println!("Primal graph in DOT format:\n{:?}\n", petgraph::dot::Dot::new(&primal_graph));
    let names: Vec<String> = primal_graph.node_weights().cloned().collect();
    assert_eq!(names, vec!["x", "y", "z"]);
    assert_eq!(
        edges(&primal_graph),
        vec![(0, 1, "c_xy".to_string()), (0, 2, "c_xz".to_string()), (0, 2, "c_xz".to_string())]
    );

    let dual_graph = p_init.dual_graph();
    println!("Dual graph in DOT format:\n{:?}\n", petgraph::dot::Dot::new(&dual_graph));
    assert_eq!(dual_graph.node_count(), 3);
    assert_eq!(
        edges(&dual_graph),
        vec![(0, 1, "x".to_string()), (0, 2, "x".to_string()), (1, 2, "x, z".to_string())]
    );

    let micro_structure = p_init.micro_structure();
    println!("Micro-structure in DOT format:\n{:?}\n", petgraph::dot::Dot::new(&micro_structure));
    assert_eq!(micro_structure.node_count(), 9);
    assert_eq!(micro_structure[petgraph::graph::NodeIndex::new(4)], "(y, 1)");
    // x = y: 3 tuples; x < z: 3 tuples; x <> z: 6 tuples; one edge each
    assert_eq!(micro_structure.edge_count(), 12);
    assert_eq!(edges(&micro_structure)[0], (0, 3, "c_xy".to_string()));
}

#[test]
fn test_graph_color() {
    let dom_color = SetDom::new(vec![0, 1, 2, 3]);
    let vmap = generate_variables("x", 9, &dom_color);
    let pairs = [
        (1, 3), (1, 4), (1, 7), (1, 2), (2, 7), (2, 8), (2, 9), (3, 4), (3, 5), (3, 6),
        (4, 5), (4, 7), (5, 6), (5, 7), (5, 8), (6, 8), (6, 9), (7, 8), (8, 9),
    ];
    let cs: Vec<Intensional<i32, Expr<i32>>> = pairs
        .iter()
        .map(|(i, j)| Intensional::from_pred(Pred::neq(v(&format!("x{}", i)), v(&format!("x{}", j)))))
        .collect();
    let p_init = Csp::new(vmap, cs).unwrap();
    println!("n: {}, e: {}, d: {}, r: {}.", p_init.n(), p_init.e(), p_init.d(), p_init.r());

    let primal_graph = p_init.primal_graph();
    println!("Primal graph in DOT format:\n{:?}\n", petgraph::dot::Dot::new(&primal_graph));
    assert_eq!(primal_graph.node_count(), 9);
    assert_eq!(primal_graph.edge_count(), 19);
    assert_eq!(edges(&primal_graph)[0], (0, 2, "c_x1x3".to_string()));
}

#[test]
fn primal_graph_ternary_scope() {
    let d = SetDom::new(vec![0, 1]);
    let vars = vec![
        ExVar::new("a".to_string(), d.snapshot()),
        ExVar::new("b".to_string(), d.snapshot()),
        ExVar::new("c".to_string(), d),
    ];
    let f = rust_solver::formula::Formula::and(vec![
        rust_solver::formula::Formula::atom(Pred::lt(v("a"), v("b"))),
        rust_solver::formula::Formula::atom(Pred::neq(v("b"), v("c"))),
    ]);
    let csp = Csp::new(vars, vec![Intensional::from_formula(f)]).unwrap();
    assert_eq!(csp.r(), 3);
    assert_eq!(
        edges(&csp.primal_graph()),
        vec![(0, 1, "c_abc".to_string()), (0, 2, "c_abc".to_string()), (1, 2, "c_abc".to_string())]
    );
}

#[test]
fn it_works() {
    let p_init = book();
    println!("{}", p_init.print());
    println!("n: {}, e: {}, d: {}, r: {}.", p_init.n(), p_init.e(), p_init.d(), p_init.r());

    let primal_graph = p_init.primal_graph();
    println!("Primal graph in DOT format:\n{:?}\n", petgraph::dot::Dot::new(&primal_graph));

    let dual_graph = p_init.dual_graph();
    println!("Dual graph in DOT format:\n{:?}\n", petgraph::dot::Dot::new(&dual_graph));

    let micro_structure = p_init.micro_structure();
    println!("Micro-structure in DOT format:\n{:?}\n", petgraph::dot::Dot::new(&micro_structure));

    assert_eq!((p_init.n(), p_init.e(), p_init.d(), p_init.r()), (3, 3, 3, 2));
    assert_eq!(primal_graph.edge_count(), 3);
    assert_eq!(dual_graph.edge_count(), 3);
}
