use slopic_core::ast::Type;
use slopic_core::diagnostic::Span;
use slopic_core::sema::{Binding, BindingId, Environment, OwnershipState};

fn binding(id: BindingId, state: OwnershipState) -> Binding {
    Binding {
        id,
        ty: Type::I64,
        mutable: false,
        state,
        definition: Span::default(),
        borrowed_from: None,
        owns_loan: false,
        captured: false,
        place: false,
    }
}

fn reference(id: BindingId, origin: BindingId, owns_loan: bool) -> Binding {
    let mut b = binding(id, OwnershipState::Available);
    b.borrowed_from = Some(origin);
    b.owns_loan = owns_loan;
    b
}

fn state(env: &Environment, id: BindingId) -> Option<OwnershipState> {
    env.bindings.iter().find(|b| b.id == id).map(|b| b.state)
}

fn find(env: &Environment, id: BindingId) -> Option<&Binding> {
    env.bindings.iter().find(|b| b.id == id)
}

#[test]
fn a_name_is_bound_once_per_block() {
    let mut env = Environment::new();
    assert_eq!(env.insert("x".to_string(), binding(1, OwnershipState::Available)), Err(()));
    env.push();
    assert_eq!(env.insert("x".to_string(), binding(1, OwnershipState::Available)), Ok(()));
    assert_eq!(env.insert("x".to_string(), binding(2, OwnershipState::Available)), Err(()));
    assert!(find(&env, 2).is_none());
    env.push();
    assert_eq!(env.insert("x".to_string(), binding(3, OwnershipState::Available)), Ok(()));
    assert_eq!(env.lookup_id("x"), Some(3));
    env.pop();
    assert_eq!(env.lookup_id("x"), Some(1));
    assert!(find(&env, 3).is_none());
    assert_eq!(env.lookup_id("y"), None);
}

#[test]
fn a_rebound_name_keeps_the_displaced_binding_to_the_end_of_the_block() {
    let mut env = Environment::new();
    env.push();
    env.rebind("x".to_string(), binding(1, OwnershipState::Available));
    env.rebind("x".to_string(), binding(2, OwnershipState::Available));
    assert_eq!(env.lookup_id("x"), Some(2));
    assert_eq!(env.scopes[0].shadowed, vec![1]);
    assert!(find(&env, 1).is_some());
    assert_eq!(env.name_of(2).as_deref(), Some("x"));
    assert_eq!(env.name_of(1), None);
    env.pop();
    assert!(env.bindings.is_empty());
    assert!(env.scopes.is_empty());
}

#[test]
fn the_innermost_name_of_a_binding_is_found() {
    let mut env = Environment::new();
    env.push();
    env.insert("outer".to_string(), binding(4, OwnershipState::Available)).unwrap();
    env.push();
    env.insert("inner".to_string(), binding(5, OwnershipState::Available)).unwrap();
    assert_eq!(env.name_of(4).as_deref(), Some("outer"));
    assert_eq!(env.name_of(5).as_deref(), Some("inner"));
    assert_eq!(env.name_of(6), None);
}

#[test]
fn each_loan_of_a_block_is_released_when_it_ends() {
    let mut env = Environment::new();
    env.push();
    env.insert("v".to_string(), binding(1, OwnershipState::SharedBorrowed(3))).unwrap();
    env.push();
    env.add_loan(1);
    env.add_loan(1);
    env.pop();
    // Two of the three shared borrows ended; the outer one still holds.
    assert_eq!(state(&env, 1), Some(OwnershipState::SharedBorrowed(1)));
    env.release_loan(1);
    assert_eq!(state(&env, 1), Some(OwnershipState::Available));
    env.release_loan(1);
    assert_eq!(state(&env, 1), Some(OwnershipState::Available));
}

#[test]
fn a_discharged_loan_is_not_released_again_at_the_end_of_its_block() {
    let mut once = Environment::new();
    once.push();
    once.insert("v".to_string(), binding(1, OwnershipState::SharedBorrowed(2))).unwrap();
    once.push();
    once.add_loan(1);
    once.discharge_loan(1);
    assert_eq!(state(&once, 1), Some(OwnershipState::SharedBorrowed(1)));
    assert!(once.scopes[1].loans.is_empty());
    once.pop();
    assert_eq!(state(&once, 1), Some(OwnershipState::SharedBorrowed(1)));

    // Discharging a loan nobody recorded changes nothing.
    once.discharge_loan(9);
    assert_eq!(state(&once, 1), Some(OwnershipState::SharedBorrowed(1)));
}

#[test]
fn an_exclusive_borrow_ends_outright() {
    let mut env = Environment::new();
    env.push();
    env.insert("v".to_string(), binding(1, OwnershipState::MutBorrowed)).unwrap();
    env.insert("m".to_string(), binding(2, OwnershipState::Moved)).unwrap();
    env.release_loan(1);
    env.release_loan(2);
    assert_eq!(state(&env, 1), Some(OwnershipState::Available));
    assert_eq!(state(&env, 2), Some(OwnershipState::Moved));
}

#[test]
fn a_dead_reference_hands_its_loan_to_a_live_one() {
    let mut env = Environment::new();
    env.push();
    env.insert("v".to_string(), binding(1, OwnershipState::SharedBorrowed(1))).unwrap();
    env.add_loan(1);
    env.insert("r".to_string(), reference(2, 1, true)).unwrap();
    env.insert("s".to_string(), reference(3, 1, false)).unwrap();
    env.release_dead_references(&vec!["s".to_string(), "v".to_string()]);
    let r = find(&env, 2).unwrap();
    assert_eq!(r.borrowed_from, None);
    assert!(!r.owns_loan);
    assert!(find(&env, 3).unwrap().owns_loan);
    // The loan lives on with `s`.
    assert_eq!(state(&env, 1), Some(OwnershipState::SharedBorrowed(1)));
    assert_eq!(env.scopes[0].loans, vec![1]);
}

#[test]
fn the_last_dead_reference_discharges_the_loan() {
    let mut env = Environment::new();
    env.push();
    env.insert("v".to_string(), binding(1, OwnershipState::SharedBorrowed(1))).unwrap();
    env.add_loan(1);
    env.insert("r".to_string(), reference(2, 1, true)).unwrap();
    env.release_dead_references(&vec!["v".to_string()]);
    assert_eq!(find(&env, 2).unwrap().borrowed_from, None);
    assert_eq!(state(&env, 1), Some(OwnershipState::Available));
    assert!(env.scopes[0].loans.is_empty());
    // Closing the block afterwards releases nothing twice.
    env.pop();
    assert!(env.bindings.is_empty());
}

#[test]
fn a_live_reference_keeps_its_borrow() {
    let mut env = Environment::new();
    env.push();
    env.insert("v".to_string(), binding(1, OwnershipState::SharedBorrowed(1))).unwrap();
    env.add_loan(1);
    env.insert("r".to_string(), reference(2, 1, true)).unwrap();
    env.release_dead_references(&vec!["r".to_string()]);
    assert_eq!(find(&env, 2).unwrap().borrowed_from, Some(1));
    assert!(find(&env, 2).unwrap().owns_loan);
    assert_eq!(state(&env, 1), Some(OwnershipState::SharedBorrowed(1)));
}
