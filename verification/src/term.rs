//! First-order terms: variables, atomic constants and compound terms.

use vstd::prelude::*;

verus! {

/// A term of the logic universe.
///
/// Variables are numbered `0, 1, 2, ...` in the order they are introduced.
/// Atoms and compound tags are interned symbols, represented as integers;
/// equality by value is the unification test.  `Bound(k)` is a binder
/// reference: inside the body of a `Fresh` goal it stands for the variable
/// of the `k`-th enclosing binder, counting from the innermost, and is
/// replaced by a real variable when the goal is applied to a state.
#[derive(Debug, PartialEq, Eq)]
pub enum Term {
    Variable(u64),
    Atom(u64),
    Compound(u64, Vec<Term>),
    Bound(u64),
}

/// The mathematical shape of a `Term`: sub-term vectors become sequences.
pub enum SpecTerm {
    Variable(u64),
    Atom(u64),
    Compound(u64, Seq<SpecTerm>),
    Bound(u64),
}

/// The mathematical value of a term.
pub open spec fn term_view(t: Term) -> SpecTerm
    decreases t, 0int,
{
    match t {
        Term::Variable(v) => SpecTerm::Variable(v),
        Term::Atom(a) => SpecTerm::Atom(a),
        Term::Bound(k) => SpecTerm::Bound(k),
        Term::Compound(tag, args) => {
            proof {
                assert(decreases_to!(t => args));
                assert(decreases_to!(args => args@));
            }
            SpecTerm::Compound(tag, terms_view(args@))
        },
    }
}

/// The mathematical values of a sequence of terms, element by element.
pub open spec fn terms_view(s: Seq<Term>) -> Seq<SpecTerm>
    decreases s, 1int,
{
    if s.len() == 0 {
        Seq::empty()
    } else {
        proof {
            assert(decreases_to!(s => s[s.len() - 1]));
        }
        terms_view(s.subrange(0, s.len() - 1)).push(term_view(s[s.len() - 1]))
    }
}

/// `terms_view` maps the sequence element by element.
pub proof fn lemma_terms_view_index(s: Seq<Term>)
    ensures
        terms_view(s).len() == s.len(),
        forall|i: int| 0 <= i < s.len() ==> terms_view(s)[i] == term_view(s[i]),
    decreases s.len(),
{
    if s.len() > 0 {
        lemma_terms_view_index(s.subrange(0, s.len() - 1));
        assert forall|i: int| 0 <= i < s.len() implies terms_view(s)[i] == term_view(s[i]) by {
            if i < s.len() - 1 {
                assert(s.subrange(0, s.len() - 1)[i] == s[i]);
            }
        }
    }
}

impl View for Term {
    type V = SpecTerm;

    open spec fn view(&self) -> SpecTerm {
        term_view(*self)
    }
}

impl Term {
    /// True exactly on variables.
    pub fn is_var(&self) -> (r: bool)
        ensures
            r == (self@ is Variable),
    {
        match self {
            Term::Variable(_) => true,
            _ => false,
        }
    }

    /// True exactly on compound terms: atoms, variables and binder
    /// references all report false.
    pub fn is_compound(&self) -> (r: bool)
        ensures
            r == (self@ is Compound),
    {
        match self {
            Term::Compound(_, _) => true,
            _ => false,
        }
    }

    /// The identifier of a term known to be a variable.
    pub fn unwrap_var(&self) -> (r: u64)
        requires
            self@ is Variable,
        ensures
            self@ == SpecTerm::Variable(r),
    {
        match self {
            Term::Variable(v) => *v,
            Term::Atom(_) => unreached(),
            Term::Compound(_, _) => unreached(),
            Term::Bound(_) => unreached(),
        }
    }

    /// A structural copy with the same mathematical value.
    #[verifier::loop_isolation(false)]
    pub fn dup(&self) -> (r: Term)
        ensures
            r@ == self@,
        decreases *self,
    {
        match self {
            Term::Variable(v) => Term::Variable(*v),
            Term::Atom(a) => Term::Atom(*a),
            Term::Bound(k) => Term::Bound(*k),
            Term::Compound(tag, args) => {
                let mut out: Vec<Term> = Vec::new();
                let mut i: usize = 0;
                while i < args.len()
                    invariant
                        i <= args@.len(),
                        out@.len() == i,
                        forall|j: int| 0 <= j < i ==> out@[j]@ == args@[j]@,
                    decreases args@.len() - i,
                {
                    proof {
                        assert(decreases_to!(*self => *args));
                        assert(decreases_to!(*args => args@));
                        assert(decreases_to!(args@ => args@[i as int]));
                    }
                    out.push(args[i].dup());
                    i = i + 1;
                }
                let r = Term::Compound(*tag, out);
                proof {
                    lemma_terms_view_index(out@);
                    lemma_terms_view_index(args@);
                    assert(terms_view(out@) =~= terms_view(args@));
                }
                r
            },
        }
    }
}

} // verus!
