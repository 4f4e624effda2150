use std::collections::HashSet;
use rust_solver::setdom::{Domain, SetDom};
use rust_solver::variable::{generate_variables, make_assignment, vv, ExVar, VValue};

fn int_dom() -> SetDom<i32> {
    SetDom::new(vec![1, 2, 3])
}

#[test]
fn exvar_new_and_label() {
    let x = ExVar::new("x".to_string(), int_dom());
    assert_eq!(x.label(), "x");
}

#[test]
fn exvar_domain_access() {
    let dom = int_dom();
    let x = ExVar::new("x".to_string(), dom.snapshot());

    assert_eq!(x.dom(), &dom);
    assert_eq!(x.valid_values(), vec![1, 2, 3]);
    assert_eq!(x.valid_size(), 3);
}

#[test]
fn exvar_initial_value_is_none() {
    let x = ExVar::new("x".to_string(), int_dom());
    assert_eq!(x.value(), None);
}

#[test]
fn exvar_value_when_single() {
    let mut x = ExVar::new("x".to_string(), int_dom());
    x.dom_mut().reduce_to(&2, 1).unwrap();
    assert_eq!(x.value(), Some(2));
}

#[test]
fn exvar_dom_read() {
    let dom = SetDom::new(vec![1, 2, 3]);
    let x = ExVar::new("x".into(), dom);

    let values = x.dom().active_values();
    assert_eq!(values, vec![1, 2, 3]);
}

#[test]
fn exvar_dom_mut_remove_value() {
    let dom = SetDom::new(vec![1, 2, 3]);
    let mut x = ExVar::new("x".into(), dom);

    {
        let d = x.dom_mut();
        d.remove_value(&2, 0).unwrap();
    }

    let values = x.dom().active_values();
    assert_eq!(values, vec![1, 3]);
}

#[test]
fn exvar_snapshot_distinct_domain() {
    let dom = SetDom::new(vec![1, 2, 3]);
    let mut x = ExVar::new("x".into(), dom.snapshot());
    let y = ExVar::new("y".into(), dom);

    {
        let dx = x.dom_mut();
        dx.remove_value(&1, 0).unwrap();
    }

    let vx = x.dom().active_values();
    let vy = y.dom().active_values();

    assert_eq!(vx, vec![2, 3]);
    assert_eq!(vy, vec![1, 2, 3]);
}

#[test]
fn exvar_equality_by_label() {
    let x1 = ExVar::new("x".to_string(), SetDom::new(vec![1, 2]));
    let x2 = ExVar::new("x".to_string(), SetDom::new(vec![3]));
    let y = ExVar::new("y".to_string(), SetDom::new(vec![1, 2]));
    assert!(x1 == x2);
    assert!(x1 != y);
}

#[test]
fn vvalue_equality() {
    let a = VValue { label: "x".into(), value: 1 };
    let b = VValue { label: "x".into(), value: 1 };
    let c = VValue { label: "x".into(), value: 2 };

    assert_eq!(a, b);
    assert_ne!(a, c);
}

#[test]
fn vvalue_hashing() {
    let mut set = HashSet::new();
    set.insert(VValue { label: "x".into(), value: 1 });

    assert!(set.contains(&VValue { label: "x".into(), value: 1 }));
    assert!(!set.contains(&VValue { label: "x".into(), value: 2 }));
}

#[test]
fn vvalue_clone() {
    let v = vv(String::from("x"), 1);
    let c = v.clone();

    assert_eq!(v, c);
}

#[test]
fn vvalue_macro() {
    let a = vec![
        VValue { label: "x".to_string(), value: 1 },
        VValue { label: "y".to_string(), value: 2 },
        VValue { label: "x".to_string(), value: 1 },
    ];

    assert_eq!(a[0], a[2]);
}

#[test]
fn make_assignment_zips_labels_and_values() {
    let labels = vec!["x".to_string(), "y".to_string()];
    let a = make_assignment(&labels, vec![4, 5, 6]);
    assert_eq!(a, vec![vv("x".to_string(), 4), vv("y".to_string(), 5)]);
}

#[test]
fn generate_variables_labels_and_domains() {
    let dom = SetDom::new(vec![1, 2]);
    let vars = generate_variables("x", 3, &dom);
    assert_eq!(vars.len(), 3);
    assert_eq!(vars[0].label(), "x1");
    assert_eq!(vars[2].label(), "x3");
    assert_eq!(vars[1].valid_values(), vec![1, 2]);
}
