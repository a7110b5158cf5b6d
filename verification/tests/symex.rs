use silver_oxide::nums::{Int, Rat};
use silver_oxide::symex::operations::{
    assume_condition, bind_var, exhale, inhale, lookup_var, ExhaleError,
};
use silver_oxide::symex::state::State;
use silver_oxide::symex::store::{LocalVar, Store};
use silver_oxide::symex::term::{FreshNames, Identifier, Sort, Term};

#[test]
fn test_inhale_exhale() {
    let mut state = State::new();
    let mut names = FreshNames::new();

    let loc = Term::fresh(&mut names, "loc", Sort::Snap);
    let perm = Term::FullPerm;
    let snap = Term::fresh_int(&mut names, "val");

    inhale(&mut state, loc.copy(), perm.copy(), snap.copy());
    assert_eq!(state.heap.chunks().len(), 1);

    let result = exhale(&mut state, &loc, &perm);
    assert!(result.is_ok());
    assert_eq!(state.heap.chunks().len(), 0);

    let result = exhale(&mut state, &loc, &perm);
    assert_eq!(result, Err(ExhaleError::NoMatchingChunk));
}

#[test]
fn test_variable_binding() {
    let mut state = State::new();

    let var = LocalVar("x".to_string());
    let val = Term::IntLit(Int::from_i64(42));

    bind_var(&mut state, var.clone(), val.copy());

    let looked_up = lookup_var(&state, &var);
    assert_eq!(looked_up, Some(&val));
}

#[test]
fn test_assume() {
    let mut state = State::new();

    let cond = Term::BoolLit(true);
    assume_condition(&mut state, cond.copy());

    assert_eq!(state.path_conditions().len(), 1);
    assert_eq!(state.path_conditions()[0], cond);
}

#[test]
fn test_store_operations() {
    let mut store = Store::new();
    let x = LocalVar("x".to_string());

    assert!(!store.contains(&x));

    store.bind(x.clone(), Term::IntLit(Int::from_i64(42)));
    assert!(store.contains(&x));

    match store.get(&x) {
        Some(Term::IntLit(n)) => assert_eq!(*n, Int::from_i64(42)),
        _ => panic!("Expected IntLit(42)"),
    }
}

#[test]
fn test_immutable_update() {
    let store1 = Store::new();
    let x = LocalVar("x".to_string());
    let y = LocalVar("y".to_string());

    let store2 = store1.with_binding(x.clone(), Term::IntLit(Int::from_i64(1)));
    let store3 = store2.with_binding(y.clone(), Term::IntLit(Int::from_i64(2)));

    assert!(!store1.contains(&x));

    assert!(store2.contains(&x));
    assert!(!store2.contains(&y));

    assert!(store3.contains(&x));
    assert!(store3.contains(&y));
}

#[test]
fn test_fresh_variables() {
    let mut names = FreshNames::new();
    let v1 = Term::fresh_int(&mut names, "x");
    let v2 = Term::fresh_int(&mut names, "x");

    assert_ne!(v1, v2);

    assert_eq!(v1.sort(), Sort::Int);
    assert_eq!(v2.sort(), Sort::Int);
}

#[test]
fn test_permission_terms() {
    let half = Term::FracPerm(Rat::new(&Int::from_i64(1), &Int::from_i64(2)));

    assert_eq!(half.sort(), Sort::Perm);
    assert_eq!(Term::NoPerm.sort(), Sort::Perm);
    assert_eq!(Term::FullPerm.sort(), Sort::Perm);
}

#[test]
fn fresh_names_count_up() {
    let mut names = FreshNames { next: 9 };
    let a = Term::fresh_ref(&mut names, "x_1");
    let b = Term::fresh_perm(&mut names, "x");
    assert_eq!(a, Term::Var(Identifier("$x_1_9".to_string()), Sort::Ref));
    assert_eq!(b, Term::Var(Identifier("$x_10".to_string()), Sort::Perm));
}

#[test]
fn rebinding_replaces_the_term() {
    let mut store = Store::new();
    let x = LocalVar("x".to_string());
    store.bind(x.clone(), Term::BoolLit(true));
    store.bind(x.clone(), Term::Null);
    assert_eq!(store.get(&x), Some(&Term::Null));
    assert_eq!(store.bindings().len(), 1);
}

#[test]
fn a_conditional_has_the_sort_of_its_branches() {
    let t = Term::Ite(
        Box::new(Term::BoolLit(true)),
        Box::new(Term::FullPerm),
        Box::new(Term::NoPerm),
    );
    assert_eq!(t.sort(), Sort::Perm);
    assert!(t.same(&t.copy()));
    assert!(!t.same(&Term::FullPerm));
}
