use rust_solver::truth::Truth;

#[test]
fn truth_equality() {
    assert_eq!(Truth::True, Truth::True);
    assert_eq!(Truth::False, Truth::False);
    assert_eq!(Truth::Unknown, Truth::Unknown);
    assert_ne!(Truth::True, Truth::False);
}

#[test]
fn truth_helpers() {
    assert!(Truth::True.is_true());
    assert!(!Truth::True.is_false());
    assert!(!Truth::True.is_unknown());

    assert!(Truth::False.is_false());
    assert!(Truth::Unknown.is_unknown());
}

#[test]
fn truth_not() {
    assert_eq!(!Truth::True, Truth::False);
    assert_eq!(!Truth::False, Truth::True);
    assert_eq!(!Truth::Unknown, Truth::Unknown);
}

#[test]
fn truth_kleene_connectives() {
    assert_eq!(Truth::True.and(Truth::Unknown), Truth::Unknown);
    assert_eq!(Truth::False.and(Truth::Unknown), Truth::False);
    assert_eq!(Truth::True.or(Truth::Unknown), Truth::True);
    assert_eq!(Truth::False.or(Truth::Unknown), Truth::Unknown);
    assert_eq!(Truth::False.or(Truth::False), Truth::False);
    assert_eq!(Truth::True & Truth::True, Truth::True);
    assert_eq!(Truth::False | Truth::Unknown, Truth::Unknown);
    assert_eq!(Truth::from(true), Truth::True);
    assert_eq!(Truth::from(false), Truth::False);
    assert_eq!(Truth::Unknown.to_bool(), None);
    assert_eq!(Truth::False.to_bool(), Some(false));
}
