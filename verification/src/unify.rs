//! First-order unification over a triangular substitution.
//!
//! Unification recurses through the sub-terms of walked compounds, and a
//! walked compound can be arbitrarily larger than the term it came from, so
//! the recursion carries an explicit depth budget.  Exhausting the budget is
//! reported apart from failure; on any budget large enough, the outcome no
//! longer changes (`lemma_unify_fuel_mono`), and against a term that
//! resolves to a ground value within the budget the budget always decides
//! (`crate::laws::lemma_unify_decides`).

use vstd::prelude::*;
use crate::term::Term;
use crate::term::SpecTerm;
use crate::term::term_view;
use crate::term::terms_view;
use crate::term::lemma_terms_view_index;
use crate::state::State;
use crate::state::is_bound;
use crate::state::spec_walk;
use crate::state::wf_bindings;
use crate::state::lemma_walk_result;
use crate::state::lemma_wf_push;

verus! {

/// The outcome of one depth-bounded unification attempt.
pub enum UnifyOutcome {
    /// The depth budget ran out before an answer was reached.
    Stuck,
    /// The two terms do not unify.
    Fail,
    /// The two terms unify, extending the state as recorded.
    Done(State),
}

/// The mathematical shape of a `UnifyOutcome`: a successful outcome is the
/// extended binding list.
pub enum SpecUnify {
    Stuck,
    Fail,
    Done(Seq<(u64, SpecTerm)>),
}

impl View for UnifyOutcome {
    type V = SpecUnify;

    open spec fn view(&self) -> SpecUnify {
        match self {
            UnifyOutcome::Stuck => SpecUnify::Stuck,
            UnifyOutcome::Fail => SpecUnify::Fail,
            UnifyOutcome::Done(s) => SpecUnify::Done(s@.bindings),
        }
    }
}

/// Unification, depth budget made explicit.  Both terms are walked; two
/// occurrences of one unbound variable unify without a new binding; an
/// unbound variable unifies with anything by binding it; compounds unify
/// when tags and arities match and their sub-terms unify pairwise, the
/// state threaded left to right; atoms unify exactly when equal.  An
/// unresolved binder reference unifies with nothing, not even itself: it
/// stands for no value until the variable of its binder is substituted
/// in.
pub open spec fn spec_unify(
    bs: Seq<(u64, SpecTerm)>,
    a: SpecTerm,
    b: SpecTerm,
    fuel: nat,
) -> SpecUnify
    decreases fuel, 0int,
{
    if fuel == 0 {
        SpecUnify::Stuck
    } else {
        let wa = spec_walk(bs, a);
        let wb = spec_walk(bs, b);
        match (wa, wb) {
            (SpecTerm::Variable(x), SpecTerm::Variable(y)) => if x == y {
                SpecUnify::Done(bs)
            } else {
                SpecUnify::Done(bs.push((x, wb)))
            },
            (SpecTerm::Variable(x), _) => SpecUnify::Done(bs.push((x, wb))),
            (_, SpecTerm::Variable(y)) => SpecUnify::Done(bs.push((y, wa))),
            (SpecTerm::Atom(p), SpecTerm::Atom(q)) => if p == q {
                SpecUnify::Done(bs)
            } else {
                SpecUnify::Fail
            },
            (SpecTerm::Compound(f, xs), SpecTerm::Compound(g, ys)) => if f == g && xs.len()
                == ys.len() {
                spec_unify_seq(bs, xs, ys, (fuel - 1) as nat)
            } else {
                SpecUnify::Fail
            },
            _ => SpecUnify::Fail,
        }
    }
}

/// Pairwise unification of two equally long sequences of sub-terms,
/// threading the extended state left to right.
pub open spec fn spec_unify_seq(
    bs: Seq<(u64, SpecTerm)>,
    xs: Seq<SpecTerm>,
    ys: Seq<SpecTerm>,
    fuel: nat,
) -> SpecUnify
    decreases fuel, xs.len() + 1,
{
    if xs.len() == 0 {
        SpecUnify::Done(bs)
    } else {
        match spec_unify(bs, xs[0], ys[0], fuel) {
            SpecUnify::Done(b2) => spec_unify_seq(b2, xs.drop_first(), ys.drop_first(), fuel),
            SpecUnify::Fail => SpecUnify::Fail,
            SpecUnify::Stuck => SpecUnify::Stuck,
        }
    }
}

/// Once the budget suffices for an answer, any larger budget gives the
/// same answer.
pub proof fn lemma_unify_fuel_mono(
    bs: Seq<(u64, SpecTerm)>,
    a: SpecTerm,
    b: SpecTerm,
    k1: nat,
    k2: nat,
)
    requires
        k1 <= k2,
        spec_unify(bs, a, b, k1) != SpecUnify::Stuck,
    ensures
        spec_unify(bs, a, b, k2) == spec_unify(bs, a, b, k1),
    decreases k1, 0int,
{
    let wa = spec_walk(bs, a);
    let wb = spec_walk(bs, b);
    match (wa, wb) {
        (SpecTerm::Compound(f, xs), SpecTerm::Compound(g, ys)) => {
            if f == g && xs.len() == ys.len() {
                lemma_unify_seq_fuel_mono(bs, xs, ys, (k1 - 1) as nat, (k2 - 1) as nat);
            }
        },
        _ => {},
    }
}

/// As `lemma_unify_fuel_mono`, for sub-term sequences.
pub proof fn lemma_unify_seq_fuel_mono(
    bs: Seq<(u64, SpecTerm)>,
    xs: Seq<SpecTerm>,
    ys: Seq<SpecTerm>,
    k1: nat,
    k2: nat,
)
    requires
        k1 <= k2,
        spec_unify_seq(bs, xs, ys, k1) != SpecUnify::Stuck,
    ensures
        spec_unify_seq(bs, xs, ys, k2) == spec_unify_seq(bs, xs, ys, k1),
    decreases k1, xs.len() + 1,
{
    if xs.len() > 0 {
        lemma_unify_fuel_mono(bs, xs[0], ys[0], k1, k2);
        match spec_unify(bs, xs[0], ys[0], k1) {
            SpecUnify::Done(b2) => {
                lemma_unify_seq_fuel_mono(b2, xs.drop_first(), ys.drop_first(), k1, k2);
            },
            _ => {},
        }
    }
}

/// Successful unification only appends: the bindings it starts from stay,
/// unchanged and in place, a prefix of the bindings it returns.
pub proof fn lemma_unify_extends(bs: Seq<(u64, SpecTerm)>, a: SpecTerm, b: SpecTerm, k: nat)
    ensures
        spec_unify(bs, a, b, k) matches SpecUnify::Done(b2) ==> bs.is_prefix_of(b2),
    decreases k, 0int,
{
    if k > 0 {
        let wa = spec_walk(bs, a);
        let wb = spec_walk(bs, b);
        match (wa, wb) {
            (SpecTerm::Compound(f, xs), SpecTerm::Compound(g, ys)) => {
                if f == g && xs.len() == ys.len() {
                    lemma_unify_seq_extends(bs, xs, ys, (k - 1) as nat);
                }
            },
            _ => {},
        }
        assert forall|t: (u64, SpecTerm)| bs.is_prefix_of(#[trigger] bs.push(t)) by {
            assert(bs =~= bs.push(t).subrange(0, bs.len() as int));
        }
        assert(bs.is_prefix_of(bs));
    }
}

/// As `lemma_unify_extends`, for sub-term sequences.
pub proof fn lemma_unify_seq_extends(
    bs: Seq<(u64, SpecTerm)>,
    xs: Seq<SpecTerm>,
    ys: Seq<SpecTerm>,
    k: nat,
)
    ensures
        spec_unify_seq(bs, xs, ys, k) matches SpecUnify::Done(b3) ==> bs.is_prefix_of(b3),
    decreases k, xs.len() + 1,
{
    if xs.len() == 0 {
        assert(bs.is_prefix_of(bs));
    } else {
        lemma_unify_extends(bs, xs[0], ys[0], k);
        match spec_unify(bs, xs[0], ys[0], k) {
            SpecUnify::Done(b2) => {
                lemma_unify_seq_extends(b2, xs.drop_first(), ys.drop_first(), k);
                match spec_unify_seq(b2, xs.drop_first(), ys.drop_first(), k) {
                    SpecUnify::Done(b3) => {
                        assert(bs =~= b3.subrange(0, bs.len() as int));
                    },
                    _ => {},
                }
            },
            _ => {},
        }
    }
}

/// Successful unification keeps the binding list well-formed: it only
/// binds walked (hence unbound) variables, to walked terms.
pub proof fn lemma_unify_wf(bs: Seq<(u64, SpecTerm)>, a: SpecTerm, b: SpecTerm, k: nat)
    requires
        wf_bindings(bs),
    ensures
        spec_unify(bs, a, b, k) matches SpecUnify::Done(b2) ==> wf_bindings(b2),
    decreases k, 0int,
{
    if k > 0 {
        let wa = spec_walk(bs, a);
        let wb = spec_walk(bs, b);
        lemma_walk_result(bs, a);
        lemma_walk_result(bs, b);
        match (wa, wb) {
            (SpecTerm::Variable(x), SpecTerm::Variable(y)) => {
                if x != y {
                    lemma_wf_push(bs, x, wb);
                }
            },
            (SpecTerm::Variable(x), _) => {
                lemma_wf_push(bs, x, wb);
            },
            (_, SpecTerm::Variable(y)) => {
                lemma_wf_push(bs, y, wa);
            },
            (SpecTerm::Compound(f, xs), SpecTerm::Compound(g, ys)) => {
                if f == g && xs.len() == ys.len() {
                    lemma_unify_seq_wf(bs, xs, ys, (k - 1) as nat);
                }
            },
            _ => {},
        }
    }
}

/// As `lemma_unify_wf`, for sub-term sequences.
pub proof fn lemma_unify_seq_wf(
    bs: Seq<(u64, SpecTerm)>,
    xs: Seq<SpecTerm>,
    ys: Seq<SpecTerm>,
    k: nat,
)
    requires
        wf_bindings(bs),
    ensures
        spec_unify_seq(bs, xs, ys, k) matches SpecUnify::Done(b3) ==> wf_bindings(b3),
    decreases k, xs.len() + 1,
{
    if xs.len() > 0 {
        lemma_unify_wf(bs, xs[0], ys[0], k);
        match spec_unify(bs, xs[0], ys[0], k) {
            SpecUnify::Done(b2) => {
                lemma_unify_seq_wf(b2, xs.drop_first(), ys.drop_first(), k);
            },
            _ => {},
        }
    }
}

/// A generous default depth budget, for callers of `unify`, `step` and
/// `solve` that have no better bound of their own.  It is nothing but a
/// suggestion: every budget is the caller's choice, and `unify_fuel`
/// reports exhaustion apart from failure.
pub const UNIFY_FUEL: u64 = 1024;

impl State {
    /// Unification with an explicit depth budget, mirrored exactly by
    /// `spec_unify`.
    #[verifier::loop_isolation(false)]
    pub fn unify_fuel(&self, a: &Term, b: &Term, fuel: u64) -> (r: UnifyOutcome)
        requires
            self.wf(),
        ensures
            r@ == spec_unify(self@.bindings, a@, b@, fuel as nat),
            r matches UnifyOutcome::Done(s2) ==> s2.wf() && s2@.count == self@.count,
        decreases fuel,
    {
        if fuel == 0 {
            return UnifyOutcome::Stuck;
        }
        let wa = self.get_binding(a);
        let wb = self.get_binding(b);
        proof {
            lemma_walk_result(self@.bindings, a@);
            lemma_walk_result(self@.bindings, b@);
        }
        match (wa, wb) {
            (Term::Variable(x), Term::Variable(y)) => {
                if x == y {
                    UnifyOutcome::Done(self.dup())
                } else {
                    let mut s = self.dup();
                    s.add_binding(x, Term::Variable(y));
                    UnifyOutcome::Done(s)
                }
            },
            (Term::Variable(x), t) => {
                let mut s = self.dup();
                s.add_binding(x, t);
                UnifyOutcome::Done(s)
            },
            (t, Term::Variable(y)) => {
                let mut s = self.dup();
                s.add_binding(y, t);
                UnifyOutcome::Done(s)
            },
            (Term::Atom(p), Term::Atom(q)) => {
                if p == q {
                    UnifyOutcome::Done(self.dup())
                } else {
                    UnifyOutcome::Fail
                }
            },
            (Term::Compound(f, xs), Term::Compound(g, ys)) => {
                proof {
                    lemma_terms_view_index(xs@);
                    lemma_terms_view_index(ys@);
                }
                if f == g && xs.len() == ys.len() {
                    let ghost bs0 = self@.bindings;
                    let ghost xv = terms_view(xs@);
                    let ghost yv = terms_view(ys@);
                    let ghost fm = (fuel - 1) as nat;
                    proof {
                        assert(xv.skip(0) =~= xv);
                        assert(yv.skip(0) =~= yv);
                    }
                    let mut cur: State = self.dup();
                    let mut i: usize = 0;
                    while i < xs.len()
                        invariant
                            i <= xs@.len(),
                            cur.wf(),
                            cur@.count == self@.count,
                            spec_unify_seq(bs0, xv, yv, fm) == spec_unify_seq(
                                cur@.bindings,
                                xv.skip(i as int),
                                yv.skip(i as int),
                                fm,
                            ),
                        decreases xs@.len() - i,
                    {
                        match cur.unify_fuel(&xs[i], &ys[i], fuel - 1) {
                            UnifyOutcome::Done(s2) => {
                                proof {
                                    assert(xv.skip(i as int)[0] == term_view(xs@[i as int]));
                                    assert(yv.skip(i as int)[0] == term_view(ys@[i as int]));
                                    assert(xv.skip(i as int).drop_first() =~= xv.skip(i + 1));
                                    assert(yv.skip(i as int).drop_first() =~= yv.skip(i + 1));
                                }
                                cur = s2;
                                i = i + 1;
                            },
                            UnifyOutcome::Fail => {
                                proof {
                                    assert(xv.skip(i as int)[0] == term_view(xs@[i as int]));
                                    assert(yv.skip(i as int)[0] == term_view(ys@[i as int]));
                                }
                                return UnifyOutcome::Fail;
                            },
                            UnifyOutcome::Stuck => {
                                proof {
                                    assert(xv.skip(i as int)[0] == term_view(xs@[i as int]));
                                    assert(yv.skip(i as int)[0] == term_view(ys@[i as int]));
                                }
                                return UnifyOutcome::Stuck;
                            },
                        }
                    }
                    proof {
                        assert(xv.skip(xs@.len() as int) =~= Seq::<SpecTerm>::empty());
                    }
                    UnifyOutcome::Done(cur)
                } else {
                    UnifyOutcome::Fail
                }
            },
            _ => UnifyOutcome::Fail,
        }
    }

    /// Unification under a depth budget of the caller's choosing: walks
    /// both terms and extends the state by the bindings that make them
    /// coincide, or reports that none were found within the budget.
    /// Failure is an outcome, never a panic.  `None` covers genuine
    /// failure and budget exhaustion alike; a caller that must tell the
    /// two apart uses `unify_fuel`, whose outcome keeps them separate.
    pub fn unify(&self, a: &Term, b: &Term, fuel: u64) -> (r: Option<State>)
        requires
            self.wf(),
        ensures
            match r {
                Some(s2) => spec_unify(self@.bindings, a@, b@, fuel as nat)
                    == SpecUnify::Done(s2@.bindings) && s2.wf() && s2@.count == self@.count
                    && self@.bindings.is_prefix_of(s2@.bindings),
                None => !(spec_unify(self@.bindings, a@, b@, fuel as nat) is Done),
            },
    {
        proof {
            lemma_unify_extends(self@.bindings, a@, b@, fuel as nat);
        }
        match self.unify_fuel(a, b, fuel) {
            UnifyOutcome::Done(s2) => Some(s2),
            UnifyOutcome::Fail => None,
            UnifyOutcome::Stuck => None,
        }
    }
}

} // verus!
