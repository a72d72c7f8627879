//! Goals: the four primitive constructors of relational programs.
//!
//! A goal is closed data; applying it to a state yields a stream of states.
//! The body of a `Fresh` goal refers to the variable it introduces through
//! `Term::Bound(k)`, the de Bruijn index of the binder counted from the
//! innermost; the search keeps an environment of the variables allocated
//! for the enclosing binders and resolves binder references against it when
//! a `Unify` goal is reached.

use vstd::prelude::*;
use crate::term::Term;
use crate::term::SpecTerm;
use crate::term::term_view;
use crate::term::terms_view;
use crate::term::lemma_terms_view_index;

verus! {

/// A relational program: unification of two terms, introduction of a fresh
/// variable for the binder references of the body, disjunction, or
/// conjunction.
pub enum Goal {
    Unify(Term, Term),
    Fresh(Box<Goal>),
    Disj(Box<Goal>, Box<Goal>),
    Conj(Box<Goal>, Box<Goal>),
}

/// The mathematical shape of a `Goal`.
pub enum SpecGoal {
    Unify(SpecTerm, SpecTerm),
    Fresh(Box<SpecGoal>),
    Disj(Box<SpecGoal>, Box<SpecGoal>),
    Conj(Box<SpecGoal>, Box<SpecGoal>),
}

/// The mathematical value of a goal.
pub open spec fn goal_view(g: Goal) -> SpecGoal
    decreases g,
{
    match g {
        Goal::Unify(a, b) => SpecGoal::Unify(term_view(a), term_view(b)),
        Goal::Fresh(body) => SpecGoal::Fresh(Box::new(goal_view(*body))),
        Goal::Disj(g1, g2) => SpecGoal::Disj(
            Box::new(goal_view(*g1)),
            Box::new(goal_view(*g2)),
        ),
        Goal::Conj(g1, g2) => SpecGoal::Conj(
            Box::new(goal_view(*g1)),
            Box::new(goal_view(*g2)),
        ),
    }
}

impl View for Goal {
    type V = SpecGoal;

    open spec fn view(&self) -> SpecGoal {
        goal_view(*self)
    }
}

/// Replaces each binder reference `Bound(k)` by the variable allocated for
/// its binder: the environment lists those variables outermost first, so
/// index `k` counts from its end.  A reference with no enclosing binder is
/// left in place.
pub open spec fn spec_resolve(t: SpecTerm, env: Seq<u64>) -> SpecTerm
    decreases t, 0int,
{
    match t {
        SpecTerm::Variable(_) => t,
        SpecTerm::Atom(_) => t,
        SpecTerm::Bound(k) => if k < env.len() {
            SpecTerm::Variable(env[env.len() - 1 - k])
        } else {
            t
        },
        SpecTerm::Compound(f, args) => SpecTerm::Compound(f, spec_resolve_seq(args, env)),
    }
}

/// `spec_resolve`, element by element.
pub open spec fn spec_resolve_seq(s: Seq<SpecTerm>, env: Seq<u64>) -> Seq<SpecTerm>
    decreases s, 1int,
{
    if s.len() == 0 {
        Seq::empty()
    } else {
        proof {
            assert(decreases_to!(s => s[s.len() - 1]));
        }
        spec_resolve_seq(s.subrange(0, s.len() - 1), env).push(
            spec_resolve(s[s.len() - 1], env),
        )
    }
}

/// `spec_resolve_seq` maps the sequence element by element.
pub proof fn lemma_resolve_seq_index(s: Seq<SpecTerm>, env: Seq<u64>)
    ensures
        spec_resolve_seq(s, env).len() == s.len(),
        forall|i: int|
            0 <= i < s.len() ==> spec_resolve_seq(s, env)[i] == spec_resolve(s[i], env),
    decreases s.len(),
{
    if s.len() > 0 {
        lemma_resolve_seq_index(s.subrange(0, s.len() - 1), env);
        assert forall|i: int|
            0 <= i < s.len() implies spec_resolve_seq(s, env)[i] == spec_resolve(
            s[i],
            env,
        ) by {
            if i < s.len() - 1 {
                assert(s.subrange(0, s.len() - 1)[i] == s[i]);
            }
        }
    }
}

impl Goal {
    /// A structural copy with the same mathematical value.
    pub fn dup(&self) -> (r: Goal)
        ensures
            r@ == self@,
        decreases *self,
    {
        match self {
            Goal::Unify(a, b) => Goal::Unify(a.dup(), b.dup()),
            Goal::Fresh(body) => Goal::Fresh(Box::new(body.dup())),
            Goal::Disj(g1, g2) => Goal::Disj(Box::new(g1.dup()), Box::new(g2.dup())),
            Goal::Conj(g1, g2) => Goal::Conj(Box::new(g1.dup()), Box::new(g2.dup())),
        }
    }
}

/// Resolves the binder references of `t` against `env`: the executable
/// `spec_resolve`.
#[verifier::loop_isolation(false)]
pub fn resolve_term(t: &Term, env: &Vec<u64>) -> (r: Term)
    ensures
        r@ == spec_resolve(t@, env@),
    decreases *t,
{
    match t {
        Term::Variable(v) => Term::Variable(*v),
        Term::Atom(a) => Term::Atom(*a),
        Term::Bound(k) => {
            if *k < env.len() as u64 {
                Term::Variable(env[env.len() - 1 - (*k as usize)])
            } else {
                Term::Bound(*k)
            }
        },
        Term::Compound(tag, args) => {
            let mut out: Vec<Term> = Vec::new();
            let mut i: usize = 0;
            while i < args.len()
                invariant
                    i <= args@.len(),
                    out@.len() == i,
                    forall|j: int|
                        0 <= j < i ==> out@[j]@ == spec_resolve(args@[j]@, env@),
                decreases args@.len() - i,
            {
                proof {
                    assert(decreases_to!(*t => *args));
                    assert(decreases_to!(*args => args@));
                    assert(decreases_to!(args@ => args@[i as int]));
                }
                out.push(resolve_term(&args[i], env));
                i = i + 1;
            }
            let r = Term::Compound(*tag, out);
            proof {
                lemma_terms_view_index(out@);
                lemma_terms_view_index(args@);
                lemma_resolve_seq_index(terms_view(args@), env@);
                assert(terms_view(out@) =~= spec_resolve_seq(terms_view(args@), env@));
            }
            r
        },
    }
}

/// Copies an environment of binder variables.
#[verifier::loop_isolation(false)]
pub fn dup_env(env: &Vec<u64>) -> (r: Vec<u64>)
    ensures
        r@ == env@,
{
    let mut out: Vec<u64> = Vec::new();
    let mut i: usize = 0;
    while i < env.len()
        invariant
            i <= env@.len(),
            out@.len() == i,
            forall|j: int| 0 <= j < i ==> out@[j] == env@[j],
        decreases env@.len() - i,
    {
        out.push(env[i]);
        i = i + 1;
    }
    proof {
        assert(out@ =~= env@);
    }
    out
}

} // verus!
