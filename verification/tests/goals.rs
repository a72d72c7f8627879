//! Goal combinators and the stream-driven search on concrete programs.

use mukanren::goal::Goal;
use mukanren::state::State;
use mukanren::stream::solve;
use mukanren::unify::UNIFY_FUEL;
use mukanren::term::Term;

const A: u64 = 0;
const B: u64 = 1;
const C: u64 = 2;
const F: u64 = 10;

fn unify_goal(a: Term, b: Term) -> Goal {
    Goal::Unify(a, b)
}

fn disj(a: Goal, b: Goal) -> Goal {
    Goal::Disj(Box::new(a), Box::new(b))
}

fn conj(a: Goal, b: Goal) -> Goal {
    Goal::Conj(Box::new(a), Box::new(b))
}

fn fresh(body: Goal) -> Goal {
    Goal::Fresh(Box::new(body))
}

/// Collects every solution of `g` run against the empty state.
fn run_all(g: Goal) -> Vec<State> {
    solve(g, State::new(), 100, 100_000, UNIFY_FUEL)
}

#[test]
fn fresh_binds_new_variable() {
    let g = fresh(unify_goal(Term::Bound(0), Term::Atom(A)));
    let solutions = run_all(g);
    assert_eq!(solutions.len(), 1);
    let st = &solutions[0];
    assert_eq!(st.count, 1);
    assert_eq!(st.bindings, vec![(0, Term::Atom(A))]);
}

#[test]
fn disj_yields_only_the_succeeding_branch() {
    let g = disj(
        unify_goal(Term::Atom(A), Term::Atom(A)),
        unify_goal(Term::Atom(A), Term::Atom(B)),
    );
    let solutions = run_all(g);
    assert_eq!(solutions.len(), 1);
    assert_eq!(solutions[0].bindings.len(), 0);
}

#[test]
fn disj_yields_both_branches() {
    let g = fresh(disj(
        unify_goal(Term::Bound(0), Term::Atom(A)),
        unify_goal(Term::Bound(0), Term::Atom(B)),
    ));
    let solutions = run_all(g);
    assert_eq!(solutions.len(), 2);
    let mut atoms: Vec<&Term> = solutions.iter().map(|s| &s.bindings[0].1).collect();
    atoms.sort_by_key(|t| match t {
        Term::Atom(v) => *v,
        _ => u64::MAX,
    });
    assert_eq!(atoms, vec![&Term::Atom(A), &Term::Atom(B)]);
}

#[test]
fn conj_requires_both() {
    let g = fresh(conj(
        unify_goal(Term::Bound(0), Term::Atom(A)),
        unify_goal(Term::Bound(0), Term::Atom(B)),
    ));
    assert_eq!(run_all(g).len(), 0);
    let g2 = fresh(conj(
        unify_goal(Term::Bound(0), Term::Atom(A)),
        unify_goal(Term::Bound(0), Term::Atom(A)),
    ));
    assert_eq!(run_all(g2).len(), 1);
}

#[test]
fn nested_fresh_binds_each_binder() {
    // inner binder is Bound(0), outer is Bound(1)
    let g = fresh(fresh(conj(
        unify_goal(Term::Bound(1), Term::Atom(A)),
        unify_goal(Term::Bound(0), Term::Atom(B)),
    )));
    let solutions = run_all(g);
    assert_eq!(solutions.len(), 1);
    let st = &solutions[0];
    assert_eq!(st.count, 2);
    assert_eq!(st.get_binding(&Term::Variable(0)), Term::Atom(A));
    assert_eq!(st.get_binding(&Term::Variable(1)), Term::Atom(B));
}

fn solution_values(solutions: &[State]) -> Vec<Term> {
    let mut values: Vec<Term> = solutions
        .iter()
        .map(|s| s.get_binding(&Term::Variable(0)))
        .collect();
    values.sort_by_key(|t| match t {
        Term::Atom(v) => *v,
        _ => u64::MAX,
    });
    values
}

#[test]
fn conj_association_does_not_change_solutions() {
    let branches = |x: u64, y: u64| {
        disj(
            unify_goal(Term::Bound(0), Term::Atom(x)),
            unify_goal(Term::Bound(0), Term::Atom(y)),
        )
    };
    // v picked from {a, b}, again from {a, c}, and fixed to a, associated
    // both ways
    let left = fresh(conj(
        conj(branches(A, B), branches(A, C)),
        unify_goal(Term::Bound(0), Term::Atom(A)),
    ));
    let right = fresh(conj(
        branches(A, B),
        conj(branches(A, C), unify_goal(Term::Bound(0), Term::Atom(A))),
    ));
    let ls = run_all(left);
    let rs = run_all(right);
    assert_eq!(ls.len(), 1);
    assert_eq!(rs.len(), 1);
    assert_eq!(solution_values(&ls), solution_values(&rs));
    assert_eq!(solution_values(&ls), vec![Term::Atom(A)]);
}

#[test]
fn disj_does_not_starve_its_right_branch() {
    // the left branch alone yields many answers; the right branch's single
    // answer still appears in a bounded prefix of the merged stream
    let many = fresh(disj(
        disj(
            unify_goal(Term::Bound(0), Term::Atom(A)),
            unify_goal(Term::Bound(0), Term::Atom(B)),
        ),
        disj(
            unify_goal(Term::Bound(0), Term::Atom(C)),
            unify_goal(Term::Bound(0), Term::Atom(3)),
        ),
    ));
    let single = unify_goal(Term::Atom(A), Term::Atom(A));
    let solutions = solve(disj(many, single), State::new(), 100, 100_000, UNIFY_FUEL);
    assert_eq!(solutions.len(), 5);
    // the right branch's solution is the one with no bindings
    assert!(solutions.iter().any(|s| s.bindings.is_empty()));
}

#[test]
fn solve_respects_the_solution_bound() {
    let g = fresh(disj(
        unify_goal(Term::Bound(0), Term::Atom(A)),
        unify_goal(Term::Bound(0), Term::Atom(B)),
    ));
    assert_eq!(solve(g, State::new(), 1, 100_000, UNIFY_FUEL).len(), 1);
}

#[test]
fn solve_with_no_steps_finds_nothing() {
    let g = unify_goal(Term::Atom(A), Term::Atom(A));
    assert_eq!(solve(g, State::new(), 10, 0, UNIFY_FUEL).len(), 0);
}

#[test]
fn unify_goal_on_compounds_through_fresh() {
    let g = fresh(unify_goal(
        Term::Compound(F, vec![Term::Bound(0), Term::Atom(B)]),
        Term::Compound(F, vec![Term::Atom(A), Term::Atom(B)]),
    ));
    let solutions = run_all(g);
    assert_eq!(solutions.len(), 1);
    assert_eq!(solutions[0].get_binding(&Term::Variable(0)), Term::Atom(A));
}
