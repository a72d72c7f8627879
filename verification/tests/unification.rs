//! Unification and substitution-store behaviour on concrete terms.

use mukanren::state::State;
use mukanren::term::Term;
use mukanren::unify::UnifyOutcome;
use mukanren::unify::UNIFY_FUEL;

// Interned symbols used throughout the tests.
const A: u64 = 0;
const B: u64 = 1;
const X: u64 = 2;
const Y: u64 = 3;
const F: u64 = 10;
const G: u64 = 11;
const CONS: u64 = 12;

#[test]
fn unify_variable_with_atom() {
    let s = State::new();
    let r = s.unify(&Term::Variable(0), &Term::Atom(A), UNIFY_FUEL).expect("an unbound variable unifies");
    assert_eq!(r.bindings, vec![(0, Term::Atom(A))]);
    assert_eq!(r.count, 0);
    assert_eq!(r.get_binding(&Term::Variable(0)), Term::Atom(A));
}

#[test]
fn unify_compound_binds_pairwise() {
    let s = State::new();
    let lhs = Term::Compound(CONS, vec![Term::Variable(0), Term::Variable(1)]);
    let rhs = Term::Compound(CONS, vec![Term::Atom(X), Term::Atom(Y)]);
    let r = s.unify(&lhs, &rhs, UNIFY_FUEL).expect("equal tags and arities unify");
    assert_eq!(r.bindings.len(), 2);
    assert_eq!(r.get_binding(&Term::Variable(0)), Term::Atom(X));
    assert_eq!(r.get_binding(&Term::Variable(1)), Term::Atom(Y));
}

#[test]
fn unify_reflexive_leaves_state_unchanged() {
    let s = State::new();
    let s = s.unify(&Term::Variable(0), &Term::Atom(A), UNIFY_FUEL).expect("set-up binding");
    let t = Term::Compound(F, vec![Term::Atom(B), Term::Variable(0), Term::Variable(7)]);
    let r = s.unify(&t, &t, UNIFY_FUEL).expect("a term unifies with itself");
    assert_eq!(r, s);
}

#[test]
fn unify_unbound_variable_with_itself_adds_no_binding() {
    let s = State::new();
    let r = s.unify(&Term::Variable(5), &Term::Variable(5), UNIFY_FUEL).expect("same variable");
    assert_eq!(r.bindings.len(), 0);
}

#[test]
fn unify_symmetry_on_variables_and_atoms() {
    let s = State::new();
    let fwd = s.unify(&Term::Variable(0), &Term::Atom(A), UNIFY_FUEL).expect("forward");
    let bwd = s.unify(&Term::Atom(A), &Term::Variable(0), UNIFY_FUEL).expect("backward");
    assert_eq!(fwd.bindings, bwd.bindings);
}

#[test]
fn unify_symmetry_on_compounds() {
    let s = State::new();
    let c = Term::Compound(F, vec![Term::Atom(A)]);
    let v = Term::Compound(F, vec![Term::Variable(0)]);
    let fwd = s.unify(&v, &c, UNIFY_FUEL).expect("forward");
    let bwd = s.unify(&c, &v, UNIFY_FUEL).expect("backward");
    assert_eq!(fwd.bindings, bwd.bindings);
    let n1 = s.unify(&Term::Variable(0), &Term::Variable(1), UNIFY_FUEL).expect("two variables");
    let n2 = s.unify(&Term::Variable(1), &Term::Variable(0), UNIFY_FUEL).expect("swapped");
    assert_eq!(n1.bindings.len(), n2.bindings.len());
}

#[test]
fn unify_tag_mismatch_fails() {
    let s = State::new();
    let lhs = Term::Compound(F, vec![Term::Variable(0)]);
    let rhs = Term::Compound(G, vec![Term::Variable(0)]);
    assert_eq!(s.unify(&lhs, &rhs, UNIFY_FUEL), None);
}

#[test]
fn unify_arity_mismatch_fails() {
    let s = State::new();
    let lhs = Term::Compound(F, vec![Term::Variable(0)]);
    let rhs = Term::Compound(F, vec![Term::Variable(0), Term::Variable(1)]);
    assert_eq!(s.unify(&lhs, &rhs, UNIFY_FUEL), None);
}

#[test]
fn unify_equal_atoms_succeeds_without_binding() {
    let s = State::new();
    let r = s.unify(&Term::Atom(A), &Term::Atom(A), UNIFY_FUEL).expect("equal atoms");
    assert_eq!(r.bindings.len(), 0);
}

#[test]
fn unify_different_atoms_fails() {
    let s = State::new();
    assert_eq!(s.unify(&Term::Atom(A), &Term::Atom(B), UNIFY_FUEL), None);
}

#[test]
fn unify_atom_against_compound_fails() {
    let s = State::new();
    let c = Term::Compound(F, vec![Term::Atom(A)]);
    assert_eq!(s.unify(&Term::Atom(A), &c, UNIFY_FUEL), None);
}

#[test]
fn walk_follows_triangular_chains() {
    let s = State::new();
    let s = s.unify(&Term::Variable(0), &Term::Variable(1), UNIFY_FUEL).expect("link 0 to 1");
    let s = s.unify(&Term::Variable(1), &Term::Atom(A), UNIFY_FUEL).expect("bind 1");
    assert_eq!(s.get_binding(&Term::Variable(0)), Term::Atom(A));
    assert_eq!(s.get_binding(&Term::Variable(1)), Term::Atom(A));
}

#[test]
fn walk_leaves_compounds_outermost() {
    let s = State::new();
    let s = s.unify(&Term::Variable(1), &Term::Atom(A), UNIFY_FUEL).expect("bind 1");
    let c = Term::Compound(F, vec![Term::Variable(1)]);
    // walking resolves only the outermost position: the sub-term stays a variable
    assert_eq!(s.get_binding(&c), c);
}

#[test]
fn unify_nested_compounds() {
    let s = State::new();
    let lhs = Term::Compound(
        CONS,
        vec![Term::Compound(F, vec![Term::Variable(0)]), Term::Atom(B)],
    );
    let rhs = Term::Compound(
        CONS,
        vec![Term::Compound(F, vec![Term::Atom(A)]), Term::Variable(1)],
    );
    let r = s.unify(&lhs, &rhs, UNIFY_FUEL).expect("nested structures unify");
    assert_eq!(r.get_binding(&Term::Variable(0)), Term::Atom(A));
    assert_eq!(r.get_binding(&Term::Variable(1)), Term::Atom(B));
}

#[test]
fn unify_without_occurs_check_binds_through_itself() {
    // the engine is occurs-check-free: binding a variable to a compound
    // containing that same variable is accepted
    let s = State::new();
    let c = Term::Compound(F, vec![Term::Variable(0)]);
    let r = s.unify(&Term::Variable(0), &c, UNIFY_FUEL).expect("no occurs check");
    assert_eq!(r.bindings, vec![(0, c)]);
}

#[test]
fn unify_fuel_zero_is_stuck() {
    let s = State::new();
    let r = s.unify_fuel(&Term::Atom(A), &Term::Atom(A), 0);
    assert!(matches!(r, UnifyOutcome::Stuck));
}

#[test]
fn unify_fuel_reports_failure_apart_from_stuck() {
    let s = State::new();
    let r = s.unify_fuel(&Term::Atom(A), &Term::Atom(B), UNIFY_FUEL);
    assert!(matches!(r, UnifyOutcome::Fail));
}

#[test]
fn unify_deeply_nested_within_budget() {
    // a 200-deep ground list against the same list ending in a variable
    let mut ground = Term::Atom(B);
    let mut pattern = Term::Variable(0);
    for _ in 0..200 {
        ground = Term::Compound(CONS, vec![Term::Atom(A), ground]);
        pattern = Term::Compound(CONS, vec![Term::Atom(A), pattern]);
    }
    let s = State::new();
    let r = s.unify(&pattern, &ground, UNIFY_FUEL).expect("deep lists unify within the budget");
    assert_eq!(r.get_binding(&Term::Variable(0)), Term::Atom(B));
}

#[test]
fn caller_chosen_budget_reaches_beyond_the_default() {
    // a 2000-deep pair is out of the suggested default budget's reach, and
    // the engine says so — undecided, not failed; a larger budget decides it
    let mut ground = Term::Atom(B);
    let mut pattern = Term::Variable(0);
    for _ in 0..2000 {
        ground = Term::Compound(CONS, vec![Term::Atom(A), ground]);
        pattern = Term::Compound(CONS, vec![Term::Atom(A), pattern]);
    }
    let s = State::new();
    assert!(matches!(s.unify_fuel(&pattern, &ground, UNIFY_FUEL), UnifyOutcome::Stuck));
    let r = s.unify(&pattern, &ground, 4096).expect("a larger budget decides");
    assert_eq!(r.get_binding(&Term::Variable(0)), Term::Atom(B));
}

#[test]
fn fresh_variable_counts_up() {
    let mut s = State::new();
    assert_eq!(s.fresh_variable(), 0);
    assert_eq!(s.fresh_variable(), 1);
    assert_eq!(s.count, 2);
    assert_eq!(s.bindings.len(), 0);
}

#[test]
fn term_predicates() {
    assert!(Term::Variable(3).is_var());
    assert!(!Term::Atom(A).is_var());
    assert!(Term::Compound(F, vec![]).is_compound());
    assert!(!Term::Atom(A).is_compound());
    assert!(!Term::Variable(3).is_compound());
    assert!(!Term::Bound(0).is_compound());
    assert_eq!(Term::Variable(3).unwrap_var(), 3);
}
