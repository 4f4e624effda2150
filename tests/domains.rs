use rust_solver::setdom::{Domain, DomainError, ExDom, SetDom};
use rust_solver::walker::CartesianWalker;

#[test]
fn domain_size_after_remove() {
    let mut dom = SetDom::new(vec![1, 2, 3]);
    dom.remove_value(&2, 0).unwrap();
    assert_eq!(dom.size(), 2);
}

#[test]
fn domain_size_remove_twice() {
    let mut dom = SetDom::new(vec![1, 2, 3]);
    dom.remove_value(&2, 0).unwrap();
    dom.remove_value(&2, 1).unwrap();
    assert_eq!(dom.size(), 2); // must not decrement twice
}

#[test]
fn domain_size_empty() {
    let mut dom = SetDom::new(vec![1]);
    dom.remove_value(&1, 0).unwrap();
    assert_eq!(dom.size(), 0);
}

#[test]
fn setdom_domain_int_value() {
    let dom_int = SetDom::new(vec![1, 2, 3, 4]);
    assert_eq!(dom_int.size(), 4);
    assert_eq!(dom_int.min(), Some(1));
    assert_eq!(dom_int.max(), Some(4));
    assert!(dom_int.min() < dom_int.max());
    assert!(dom_int.active_values().contains(&3));
    assert!(!dom_int.active_values().contains(&5));
}

#[test]
fn setdom_cartesian_walker_two_domains() {
    let d1 = SetDom::new(vec![1, 2]);
    let d2 = SetDom::new(vec![3, 4]);

    let doms = vec![d1.active_values(), d2.active_values()];
    let w = CartesianWalker::new(doms);

    let results: Vec<Vec<i32>> = w.collect_all();

    assert_eq!(results.len(), 4);
    assert!(results.contains(&vec![1, 3]));
    assert!(results.contains(&vec![1, 4]));
    assert!(results.contains(&vec![2, 3]));
    assert!(results.contains(&vec![2, 4]));
}

#[test]
fn setdom_cartesian_walker_single_domain() {
    let d = SetDom::new(vec![1, 2, 3]);
    let results: Vec<Vec<i32>> = CartesianWalker::new(vec![d.active_values()]).collect_all();

    assert_eq!(results, vec![vec![1], vec![2], vec![3]]);
}

#[test]
fn setdom_cartesian_walker_zero_arity() {
    let results: Vec<Vec<i32>> = CartesianWalker::new(vec![]).collect_all();
    assert_eq!(results, vec![vec![]]);
}

#[test]
fn setdom_cartesian_walker_order() {
    let d1 = SetDom::new(vec![1, 2]);
    let d2 = SetDom::new(vec![3, 4]);

    let results: Vec<Vec<i32>> =
        CartesianWalker::new(vec![d1.active_values(), d2.active_values()]).collect_all();

    assert_eq!(results, vec![vec![1, 3], vec![1, 4], vec![2, 3], vec![2, 4]]);
}

#[test]
fn cartesian_walker_empty_factor() {
    let results: Vec<Vec<i32>> = CartesianWalker::new(vec![vec![1, 2], vec![]]).collect_all();
    assert!(results.is_empty());
}

#[test]
fn domain_iter_active() {
    let mut dom = SetDom::new(vec![1, 2, 3]);
    dom.remove_value(&2, 0).unwrap();

    let vals: Vec<_> = dom.iter_on_active();
    assert_eq!(vals, vec![1, 3]);
}

#[test]
fn domain_iter_all() {
    let mut dom = SetDom::new(vec![1, 2, 3]);
    dom.remove_value(&2, 0).unwrap();

    let vals: Vec<_> = dom.iter_all().clone();
    assert_eq!(vals, vec![1, 2, 3]);
}

#[test]
fn trailing_remove_add() {
    let mut d = SetDom::new(vec![0, 2, 3, 4, 5, 7, 8, 9]);

    d.remove_value(&3, 2).unwrap();
    assert_eq!(d.active_values(), vec![0, 2, 4, 5, 7, 8, 9]);

    d.restore_up_to(2);
    assert_eq!(d.active_values(), vec![0, 2, 3, 4, 5, 7, 8, 9]);
}

#[test]
fn trailing_remove_add_head() {
    let mut d = SetDom::new(vec![0, 2, 3, 4, 5, 7, 8, 9]);

    d.remove_value(&0, 2).unwrap();
    assert_eq!(d.active_values(), vec![2, 3, 4, 5, 7, 8, 9]);

    d.restore_up_to(2);
    assert_eq!(d.active_values(), vec![0, 2, 3, 4, 5, 7, 8, 9]);
}

#[test]
fn trailing_remove_add_tail() {
    let mut d = SetDom::new(vec![0, 2, 3, 4, 5, 7, 8, 9]);

    d.remove_value(&9, 2).unwrap();
    assert_eq!(d.active_values(), vec![0, 2, 3, 4, 5, 7, 8]);

    d.restore_up_to(2);
    assert_eq!(d.active_values(), vec![0, 2, 3, 4, 5, 7, 8, 9]);
}

#[test]
fn trailing_remove_multiple() {
    let mut d = SetDom::new(vec![0, 2, 3, 4, 5, 7, 8, 9]);

    d.remove_value(&2, 1).unwrap();
    d.remove_value(&4, 1).unwrap();
    d.remove_value(&3, 2).unwrap();
    assert_eq!(d.active_values(), vec![0, 5, 7, 8, 9]);
    assert_eq!(*d.get_initial_values(), vec![0, 2, 3, 4, 5, 7, 8, 9]);

    d.restore_up_to(2);
    assert_eq!(d.active_values(), vec![0, 3, 5, 7, 8, 9]);

    d.restore_up_to(1);
    assert_eq!(d.active_values(), vec![0, 2, 3, 4, 5, 7, 8, 9]);
}

#[test]
fn trailing_consistency() {
    let mut d = SetDom::new(vec![0, 2, 3, 4, 5, 7, 8, 9]);

    assert_eq!(d.size(), 8);
    assert_eq!(d.head(), Some(0));
    assert_eq!(d.tail(), Some(9));
    assert_eq!(d.active_values(), vec![0, 2, 3, 4, 5, 7, 8, 9]);

    d.remove_value(&3, 2).unwrap();
    d.remove_value(&7, 2).unwrap();
    assert_eq!(d.active_values(), vec![0, 2, 4, 5, 8, 9]);

    d.reduce_to(&5, 3).unwrap();
    assert_eq!(d.active_values(), vec![5]);

    d.restore_up_to(3);
    assert_eq!(d.active_values(), vec![0, 2, 4, 5, 8, 9]);
}

#[test]
fn trailing_full_round_trip() {
    let mut d = SetDom::new(vec![0, 2, 3, 4, 5, 7, 8, 9]);
    d.remove_value(&3, 2).unwrap();
    d.remove_value(&7, 2).unwrap();
    d.reduce_to(&5, 3).unwrap();
    assert_eq!(d.head(), Some(5));
    assert_eq!(d.tail(), Some(5));
    d.restore_up_to(3);
    assert_eq!(d.active_values(), vec![0, 2, 4, 5, 8, 9]);
    d.restore_up_to(0);
    assert_eq!(d.active_values(), vec![0, 2, 3, 4, 5, 7, 8, 9]);
}

#[test]
fn domain_trailing_remove_and_restore() {
    let mut d = SetDom::new(vec![1, 2, 3]);
    let lvl = 1;

    d.remove_value(&2, lvl).unwrap();
    assert_eq!(d.iter_on_active(), vec![1, 3]);

    d.restore_up_to(lvl);
    assert_eq!(d.iter_on_active(), vec![1, 2, 3]);
}

#[test]
fn domain_min_max_initial() {
    let dom = SetDom::new(vec![3, 1, 2]);
    assert_eq!(dom.min(), Some(1));
    assert_eq!(dom.max(), Some(3));
}

#[test]
fn domain_min_after_remove() {
    let mut dom = SetDom::new(vec![1, 2, 3]);
    dom.remove_value(&1, 0).unwrap();
    assert_eq!(dom.min(), Some(2));
}

#[test]
fn domain_max_after_remove() {
    let mut dom = SetDom::new(vec![1, 2, 3]);
    dom.remove_value(&3, 0).unwrap();
    assert_eq!(dom.max(), Some(2));
}

#[test]
fn domain_min_max_empty() {
    let mut dom = SetDom::new(vec![1]);
    dom.remove_value(&1, 0).unwrap();
    assert_eq!(dom.min(), None);
    assert_eq!(dom.max(), None);
}

#[test]
fn domain_min_max_backtrack() {
    let mut dom = SetDom::new(vec![1, 2, 3]);
    dom.remove_value(&1, 1).unwrap();
    assert_eq!(dom.min(), Some(2));
    dom.restore_up_to(0);
    assert_eq!(dom.min(), Some(1));
}

#[test]
fn domain_unknown_value_errors() {
    let mut dom = SetDom::new(vec![1, 2, 3]);
    assert_eq!(dom.remove_value(&7, 1), Err(DomainError::UnknownValue(7)));
    assert_eq!(dom.size(), 3);
    dom.remove_value(&2, 1).unwrap();
    assert_eq!(dom.reduce_to(&2, 2), Err(DomainError::UnknownValue(2)));
    assert_eq!(dom.active_values(), vec![1, 3]);
}

#[test]
fn domain_add_value_relinks() {
    let mut dom = SetDom::new(vec![1, 2, 3]);
    dom.remove_value(&2, 1).unwrap();
    dom.add_value(&2).unwrap();
    assert_eq!(dom.active_values(), vec![1, 2, 3]);
    assert_eq!(dom.add_value(&9), Err(DomainError::UnknownValue(9)));
    dom.restore_up_to(0);
    assert_eq!(dom.active_values(), vec![1, 2, 3]);
}

#[test]
fn domain_snapshot_is_independent() {
    let mut dom = SetDom::new(vec![1, 2, 3]);
    let snap = dom.snapshot();
    dom.remove_value(&1, 1).unwrap();
    assert_eq!(snap.active_values(), vec![1, 2, 3]);
    assert_eq!(dom.active_values(), vec![2, 3]);
}

#[test]
fn extdom_domain_int_value() {
    let dom_int = ExDom::new(vec![1, 2, 3, 4]);
    assert_eq!(dom_int.size(), 4);
    assert_eq!(dom_int.min(), Some(1));
    assert_eq!(dom_int.max(), Some(4));
    assert!(dom_int.min() < dom_int.max());
    assert!(dom_int.get().contains(&3));
    assert!(!dom_int.get().contains(&5));
}

#[test]
fn extdom_cartesian_walker_two_domains() {
    let d1 = ExDom::new(vec![1, 2]);
    let d2 = ExDom::new(vec![3, 4]);

    let doms = vec![d1.get().clone(), d2.get().clone()];
    let w = CartesianWalker::new(doms);

    let results: Vec<Vec<i32>> = w.collect_all();

    assert_eq!(results.len(), 4);
    assert!(results.contains(&vec![1, 3]));
    assert!(results.contains(&vec![1, 4]));
    assert!(results.contains(&vec![2, 3]));
    assert!(results.contains(&vec![2, 4]));
}

#[test]
fn extdom_cartesian_walker_single_domain() {
    let d = ExDom::new(vec![1, 2, 3]);
    let doms = vec![d.get().clone()];

    let results: Vec<Vec<i32>> = CartesianWalker::new(doms).collect_all();

    assert_eq!(results, vec![vec![1], vec![2], vec![3]]);
}

#[test]
fn extdom_cartesian_walker_zero_arity() {
    let results: Vec<Vec<i32>> = CartesianWalker::new(vec![]).collect_all();
    assert_eq!(results, vec![vec![]]);
}

#[test]
fn extdom_cartesian_walker_order() {
    let d1 = ExDom::new(vec![1, 2]);
    let d2 = ExDom::new(vec![3, 4]);

    let results: Vec<Vec<i32>> =
        CartesianWalker::new(vec![d1.get().clone(), d2.get().clone()]).collect_all();

    assert_eq!(results, vec![vec![1, 3], vec![1, 4], vec![2, 3], vec![2, 4]]);
}

#[test]
fn cartesian_walker_next_steps() {
    let mut w = CartesianWalker::new(vec![vec![1, 2], vec![3, 4]]);
    assert_eq!(w.next(), Some(vec![1, 3]));
    assert_eq!(w.next(), Some(vec![1, 4]));
    assert_eq!(w.next(), Some(vec![2, 3]));
    assert_eq!(w.next(), Some(vec![2, 4]));
    assert_eq!(w.next(), None);
    assert_eq!(w.next(), None);
}

#[test]
fn cartesian_walker_next_zero_arity_once() {
    let mut w: CartesianWalker<i32> = CartesianWalker::new(vec![]);
    assert_eq!(w.next(), Some(vec![]));
    assert_eq!(w.next(), None);
    let mut e = CartesianWalker::new(vec![vec![1], vec![]]);
    assert_eq!(e.next(), None);
}
