use unifier::disjoint_set::UnionFind;
use unifier::subst::{Substitution, UnificationFailure};
use unifier::term::{is_var, occur, sym_eq, Symbol};
use unifier::unify::unify;

fn var(name: &str) -> Symbol {
    Symbol::Var(name.to_string())
}

fn fun(name: &str, children: Vec<Symbol>) -> Symbol {
    Symbol::Function(name.to_string(), children)
}

#[test]
fn reflexivity_adds_no_bindings() {
    let mut store = Substitution::new();
    let t = fun("g", vec![fun("f", vec![var("a"), var("b")]), var("c")]);
    assert!(unify(&t, &t, &mut store).is_ok());
    // no binding was added: every variable still dereferences to itself
    assert!(sym_eq(&store.substitute(&var("a")), &var("a")));
    assert!(sym_eq(&store.substitute(&var("b")), &var("b")));
    assert!(sym_eq(&store.substitute(&var("c")), &var("c")));
    assert!(sym_eq(&store.substitute(&t), &t));
}

#[test]
fn reflexivity_on_nonempty_store() {
    let mut store = Substitution::new();
    assert!(unify(&var("x"), &fun("k", vec![]), &mut store).is_ok());
    let t = fun("g", vec![var("x"), var("y")]);
    assert!(unify(&t, &t, &mut store).is_ok());
    assert!(sym_eq(&store.substitute(&var("y")), &var("y")));
    assert!(sym_eq(&store.substitute(&var("x")), &fun("k", vec![])));
}

#[test]
fn symmetry_of_success() {
    let t1 = fun("g", vec![var("a")]);
    let t2 = fun("g", vec![fun("f", vec![var("b"), var("c")])]);
    let mut s12 = Substitution::new();
    let mut s21 = Substitution::new();
    assert!(unify(&t1, &t2, &mut s12).is_ok());
    assert!(unify(&t2, &t1, &mut s21).is_ok());
    // both directions make the two sides identical
    assert!(sym_eq(&s12.substitute(&t1), &s12.substitute(&t2)));
    assert!(sym_eq(&s21.substitute(&t1), &s21.substitute(&t2)));

    let u1 = fun("f", vec![var("a")]);
    let u2 = fun("h", vec![var("a")]);
    let mut f12 = Substitution::new();
    let mut f21 = Substitution::new();
    assert!(unify(&u1, &u2, &mut f12).is_err());
    assert!(unify(&u2, &u1, &mut f21).is_err());
}

#[test]
fn occurs_check_fails_direct() {
    let mut store = Substitution::new();
    let lhs = var("x");
    let rhs = fun("f", vec![var("x")]);
    assert_eq!(
        unify(&lhs, &rhs, &mut store),
        Err(UnificationFailure::OccursViolation)
    );
    assert!(sym_eq(&store.substitute(&var("x")), &var("x")));
}

#[test]
fn occurs_check_fails_nested() {
    let mut store = Substitution::new();
    let lhs = var("x");
    let rhs = fun("f", vec![var("y"), fun("g", vec![var("x")])]);
    assert_eq!(
        unify(&lhs, &rhs, &mut store),
        Err(UnificationFailure::OccursViolation)
    );
    // the symmetric call fails the same way
    let mut store2 = Substitution::new();
    assert_eq!(
        unify(&rhs, &lhs, &mut store2),
        Err(UnificationFailure::OccursViolation)
    );
}

#[test]
fn name_mismatch_fails() {
    let mut store = Substitution::new();
    let t1 = fun("f", vec![var("a")]);
    let t2 = fun("g", vec![var("a")]);
    assert_eq!(
        unify(&t1, &t2, &mut store),
        Err(UnificationFailure::StructuralMismatch)
    );
}

#[test]
fn arity_mismatch_fails() {
    let mut store = Substitution::new();
    let t1 = fun("f", vec![var("a")]);
    let t2 = fun("f", vec![var("a"), var("b")]);
    assert_eq!(
        unify(&t1, &t2, &mut store),
        Err(UnificationFailure::StructuralMismatch)
    );
}

#[test]
fn substitute_is_idempotent_after_unification() {
    let mut store = Substitution::new();
    let t1 = fun("g", vec![var("a")]);
    let t2 = fun("g", vec![fun("f", vec![var("b"), var("c")])]);
    assert!(unify(&t1, &t2, &mut store).is_ok());
    let once = store.substitute(&t1);
    let twice = store.substitute(&once);
    assert!(sym_eq(&once, &twice));
}

#[test]
fn substitute_resolves_chains_fully() {
    let mut store = Substitution::new();
    assert!(store.add(var("x"), var("y")).is_ok());
    assert!(store.add(var("y"), fun("f", vec![var("b")])).is_ok());
    // looking x up yields f(b), not y
    assert!(sym_eq(
        &store.substitute(&var("x")),
        &fun("f", vec![var("b")])
    ));
}

#[test]
fn add_refuses_rebinding_and_non_variables() {
    let mut store = Substitution::new();
    assert!(store.add(var("x"), fun("f", vec![])).is_ok());
    // binding again to the same dereferenced value is allowed
    assert!(store.add(var("x"), fun("f", vec![])).is_ok());
    assert_eq!(
        store.add(var("x"), fun("g", vec![])),
        Err(UnificationFailure::RebindingConflict)
    );
    assert_eq!(
        store.add(fun("f", vec![]), var("x")),
        Err(UnificationFailure::ContractViolation)
    );
    assert_eq!(
        store.add(var("z"), fun("h", vec![var("z")])),
        Err(UnificationFailure::OccursViolation)
    );
}

#[test]
fn compose_applies_then_carries_over() {
    let mut first = Substitution::new();
    assert!(first.add(var("x"), fun("f", vec![var("z")])).is_ok());
    let mut second = Substitution::new();
    assert!(second.add(var("z"), fun("a", vec![])).is_ok());
    assert!(second.add(var("y"), fun("b", vec![])).is_ok());
    let composed = first.compose(&second).unwrap();
    // x -> f(z) becomes x -> f(a); y -> b is carried over unchanged
    assert!(sym_eq(
        &composed.substitute(&var("x")),
        &fun("f", vec![fun("a", vec![])])
    ));
    assert!(sym_eq(&composed.substitute(&var("y")), &fun("b", vec![])));
}

#[test]
fn compose_refuses_cycles() {
    let mut first = Substitution::new();
    assert!(first.add(var("x"), fun("f", vec![var("z")])).is_ok());
    let mut second = Substitution::new();
    assert!(second.add(var("z"), var("x")).is_ok());
    assert_eq!(
        first.compose(&second).err(),
        Some(UnificationFailure::OccursViolation)
    );
}

#[test]
fn compose_refuses_transitive_cycles() {
    // no composed binding contains its own variable directly, but x
    // dereferences through y back to itself
    let mut first = Substitution::new();
    assert!(first.add(var("x"), fun("f", vec![var("u")])).is_ok());
    assert!(first.add(var("y"), fun("f", vec![var("v")])).is_ok());
    let mut second = Substitution::new();
    assert!(second.add(var("u"), fun("g", vec![var("y")])).is_ok());
    assert!(second.add(var("v"), fun("g", vec![var("x")])).is_ok());
    assert_eq!(
        first.compose(&second).err(),
        Some(UnificationFailure::OccursViolation)
    );
}

#[test]
fn compose_refuses_variable_loops() {
    let mut first = Substitution::new();
    assert!(first.add(var("x"), var("u")).is_ok());
    assert!(first.add(var("y"), var("v")).is_ok());
    let mut second = Substitution::new();
    assert!(second.add(var("u"), var("y")).is_ok());
    assert!(second.add(var("v"), var("x")).is_ok());
    assert_eq!(
        first.compose(&second).err(),
        Some(UnificationFailure::OccursViolation)
    );
}

#[test]
fn compose_result_is_fully_dereferenced() {
    // the carried-over binding mentions a bound variable; the composition
    // resolves the chain, so one lookup suffices
    let mut first = Substitution::new();
    assert!(first.add(var("x"), fun("f", vec![var("z")])).is_ok());
    let mut second = Substitution::new();
    assert!(second.add(var("y"), fun("g", vec![var("x")])).is_ok());
    let composed = first.compose(&second).unwrap();
    assert!(sym_eq(
        &composed.substitute(&var("y")),
        &fun("g", vec![fun("f", vec![var("z")])])
    ));
    let mut chained = Substitution::new();
    assert!(chained.add(var("y"), composed.substitute(&var("y"))).is_ok());
    assert!(unify(&var("y"), &fun("g", vec![var("w")]), &mut chained).is_ok());
}

#[test]
fn disjoint_set_scenario() {
    let mut uf = UnionFind::new(10);
    for i in 0..10 {
        assert_eq!(uf.find(i), i);
    }
    uf.unite(3, 4);
    uf.unite(4, 9);
    uf.unite(8, 0);
    uf.unite(2, 3);
    uf.unite(5, 6);
    // 0 is connected to 8 only; 1 is still a singleton
    assert_eq!(uf.find(0), uf.find(8));
    assert_ne!(uf.find(0), uf.find(3));
    assert_ne!(uf.find(1), uf.find(3));
    uf.unite(5, 9);
    uf.unite(7, 3);
    uf.unite(4, 8);
    uf.unite(6, 1);
    assert_eq!(uf.find(1), uf.find(3));
    for i in 1..10 {
        assert_eq!(uf.find(0), uf.find(i));
    }
}

#[test]
fn end_to_end_success() {
    let mut store = Substitution::new();
    let t1 = fun("g", vec![var("a")]);
    let t2 = fun("g", vec![fun("f", vec![var("b"), var("c")])]);
    assert!(unify(&t1, &t2, &mut store).is_ok());
    // the substitution, applied to g(a), yields g(f(b, c))
    assert!(sym_eq(&store.substitute(&t1), &t2));
}

#[test]
fn end_to_end_failure_keeps_store() {
    let mut store = Substitution::new();
    let t1 = fun("g", vec![var("a")]);
    let t2 = fun("h", vec![var("a")]);
    assert_eq!(
        unify(&t1, &t2, &mut store),
        Err(UnificationFailure::StructuralMismatch)
    );
    // a is still unbound
    assert!(sym_eq(&store.substitute(&var("a")), &var("a")));
}

#[test]
fn shared_subterms_unify() {
    // the same subterm appears under two parents; the session table lets
    // the second encounter succeed without re-deriving the bindings
    let shared = fun("f", vec![var("p"), var("q")]);
    let t1 = fun(
        "pair",
        vec![shared.duplicate(), shared.duplicate()],
    );
    let t2 = fun(
        "pair",
        vec![
            fun("f", vec![fun("a", vec![]), var("q")]),
            fun("f", vec![var("p"), fun("b", vec![])]),
        ],
    );
    let mut store = Substitution::new();
    assert!(unify(&t1, &t2, &mut store).is_ok());
    assert!(sym_eq(&store.substitute(&var("p")), &fun("a", vec![])));
    assert!(sym_eq(&store.substitute(&var("q")), &fun("b", vec![])));
}

#[test]
fn variable_to_variable_binding() {
    let mut store = Substitution::new();
    assert!(unify(&var("x"), &var("y"), &mut store).is_ok());
    // binding went one way or the other; both sides now dereference alike
    assert!(sym_eq(
        &store.substitute(&var("x")),
        &store.substitute(&var("y"))
    ));
}

#[test]
fn term_predicates() {
    assert!(is_var(&var("v")));
    assert!(!is_var(&fun("f", vec![])));
    assert!(occur(&var("x"), &var("x")));
    assert!(occur(&var("x"), &fun("f", vec![fun("g", vec![var("x")])])));
    assert!(!occur(&var("x"), &fun("f", vec![var("y")])));
    assert!(!occur(&fun("f", vec![]), &fun("f", vec![])));
    assert!(sym_eq(&var("x"), &var("x")));
    assert!(!sym_eq(&var("x"), &var("y")));
    assert!(!sym_eq(
        &fun("f", vec![var("x")]),
        &fun("f", vec![var("x"), var("y")])
    ));
}

#[test]
fn bound_variable_unifies_with_matching_structure() {
    let mut store = Substitution::new();
    assert!(unify(&var("x"), &fun("f", vec![var("y")]), &mut store).is_ok());
    // x is bound: unifying it against a compatible term binds y too
    assert!(unify(&var("x"), &fun("f", vec![fun("c", vec![])]), &mut store).is_ok());
    assert!(sym_eq(&store.substitute(&var("y")), &fun("c", vec![])));
    // and against an incompatible functor it fails
    assert_eq!(
        unify(&var("x"), &fun("g", vec![var("z")]), &mut store),
        Err(UnificationFailure::StructuralMismatch)
    );
}
