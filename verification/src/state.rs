//! The substitution store: a triangular substitution plus a fresh-variable
//! counter.
//!
//! Bindings are kept as an append-only association list.  A binding's target
//! term is stored as it was given, never pre-resolved, so resolving a
//! variable may have to follow a chain of bindings.  Chains terminate
//! because a variable whose binding is itself a variable always points at a
//! variable that was unbound when the binding was added, hence one that is
//! bound, if at all, only later in the list.

use vstd::prelude::*;
use crate::term::Term;
use crate::term::SpecTerm;
use crate::term::term_view;

verus! {

/// A search state: bindings from variable identifiers to terms, and the
/// next unused variable identifier.
#[derive(Debug, PartialEq, Eq)]
pub struct State {
    pub bindings: Vec<(u64, Term)>,
    pub count: u64,
}

/// The mathematical shape of a `State`.
pub struct SpecState {
    pub bindings: Seq<(u64, SpecTerm)>,
    pub count: u64,
}

/// The mathematical values of a binding list, element by element.
pub open spec fn pairs_view(s: Seq<(u64, Term)>) -> Seq<(u64, SpecTerm)> {
    Seq::new(s.len(), |i: int| (s[i].0, term_view(s[i].1)))
}

impl View for State {
    type V = SpecState;

    open spec fn view(&self) -> SpecState {
        SpecState { bindings: pairs_view(self.bindings@), count: self.count }
    }
}

/// Whether `v` has a binding.
pub open spec fn is_bound(bs: Seq<(u64, SpecTerm)>, v: u64) -> bool {
    exists|i: int| 0 <= i < bs.len() && bs[i].0 == v
}

/// The position of `v`'s binding in the list.
pub open spec fn binding_index(bs: Seq<(u64, SpecTerm)>, v: u64) -> int {
    choose|i: int| 0 <= i < bs.len() && bs[i].0 == v
}

/// The term `v` is bound to.
pub open spec fn binding_of(bs: Seq<(u64, SpecTerm)>, v: u64) -> SpecTerm {
    bs[binding_index(bs, v)].1
}

/// Well-formedness of a binding list: each variable is bound at most once,
/// and a binding whose target is itself a variable points at a variable
/// that is not bound at the same or any earlier position.
pub open spec fn wf_bindings(bs: Seq<(u64, SpecTerm)>) -> bool {
    &&& forall|i: int, j: int|
        0 <= i < j < bs.len() ==> (#[trigger] bs[i]).0 != (#[trigger] bs[j]).0
    &&& forall|i: int, j: int|
        0 <= j <= i < bs.len() && (#[trigger] bs[i]).1 is Variable ==> (#[trigger] bs[j]).0
            != bs[i].1->Variable_0
}

/// An upper bound on how many bindings a resolution chain starting at `t`
/// can still pass through.
pub open spec fn walk_measure(bs: Seq<(u64, SpecTerm)>, t: SpecTerm) -> int {
    if t is Variable && is_bound(bs, t->Variable_0) {
        bs.len() - binding_index(bs, t->Variable_0)
    } else {
        0
    }
}

/// Resolves a variable through zero or more chained bindings until it
/// reaches a non-variable term or an unbound variable; anything but a
/// variable is returned unchanged.  Only the outermost position is walked:
/// the sub-terms of a compound are left as they are.
pub open spec fn spec_walk(bs: Seq<(u64, SpecTerm)>, t: SpecTerm) -> SpecTerm
    decreases walk_measure(bs, t)
        when wf_bindings(bs)
{
    match t {
        SpecTerm::Variable(v) => if is_bound(bs, v) {
            proof {
                lemma_walk_measure_decreases(bs, v);
            }
            spec_walk(bs, binding_of(bs, v))
        } else {
            t
        },
        _ => t,
    }
}

/// Following one binding strictly shrinks the walk measure.
pub proof fn lemma_walk_measure_decreases(bs: Seq<(u64, SpecTerm)>, v: u64)
    requires
        wf_bindings(bs),
        is_bound(bs, v),
    ensures
        0 <= walk_measure(bs, binding_of(bs, v)) < walk_measure(bs, SpecTerm::Variable(v)),
{
    let i = binding_index(bs, v);
    assert(0 <= i < bs.len() && bs[i].0 == v);
    let t = binding_of(bs, v);
    if t is Variable && is_bound(bs, t->Variable_0) {
        let j = binding_index(bs, t->Variable_0);
        assert(0 <= j < bs.len() && bs[j].0 == t->Variable_0);
        assert(j > i);
    }
}

/// Appending a binding keeps the list well-formed, provided the bound
/// variable is unbound and a variable target is unbound and distinct.
pub proof fn lemma_wf_push(obs: Seq<(u64, SpecTerm)>, v: u64, t: SpecTerm)
    requires
        wf_bindings(obs),
        !is_bound(obs, v),
        t is Variable ==> !is_bound(obs, t->Variable_0) && t->Variable_0 != v,
    ensures
        wf_bindings(obs.push((v, t))),
{
    let bs = obs.push((v, t));
    assert forall|i: int, j: int| 0 <= i < j < bs.len() implies (#[trigger] bs[i]).0 != (
    #[trigger] bs[j]).0 by {
        if j < bs.len() - 1 {
            assert(bs[i] == obs[i] && bs[j] == obs[j]);
        } else {
            assert(bs[j].0 == v);
            assert(obs[i] == bs[i]);
            assert(!is_bound(obs, v));
        }
    }
    assert forall|i: int, j: int|
        0 <= j <= i < bs.len() && (#[trigger] bs[i]).1 is Variable implies (#[trigger] bs[j]).0
        != bs[i].1->Variable_0 by {
        if i < bs.len() - 1 {
            assert(bs[i] == obs[i] && bs[j] == obs[j]);
        } else {
            assert(bs[i].1 == t);
            let w = t->Variable_0;
            if j < bs.len() - 1 {
                assert(bs[j] == obs[j]);
                assert(!is_bound(obs, w));
            } else {
                assert(bs[j].0 == v);
            }
        }
    }
}

/// A binding present in a list is looked up unchanged in any well-formed
/// extension of it.
pub proof fn lemma_binding_prefix(bs1: Seq<(u64, SpecTerm)>, bs2: Seq<(u64, SpecTerm)>, v: u64)
    requires
        wf_bindings(bs2),
        bs1.is_prefix_of(bs2),
        is_bound(bs1, v),
    ensures
        is_bound(bs2, v),
        binding_of(bs2, v) == binding_of(bs1, v),
{
    let i = binding_index(bs1, v);
    assert(0 <= i < bs1.len() && bs1[i].0 == v);
    assert(bs2[i] == bs1[i]);
    assert(is_bound(bs2, v));
    let j = binding_index(bs2, v);
    assert(0 <= j < bs2.len() && bs2[j].0 == v);
    assert(j == i);
}

/// A walk that ends in a non-variable term ends in the same term under
/// any well-formed extension of the bindings.
pub proof fn lemma_walk_prefix(bs1: Seq<(u64, SpecTerm)>, bs2: Seq<(u64, SpecTerm)>, t: SpecTerm)
    requires
        wf_bindings(bs1),
        wf_bindings(bs2),
        bs1.is_prefix_of(bs2),
        !(spec_walk(bs1, t) is Variable),
    ensures
        spec_walk(bs2, t) == spec_walk(bs1, t),
    decreases walk_measure(bs1, t),
{
    match t {
        SpecTerm::Variable(v) => {
            assert(is_bound(bs1, v));
            lemma_binding_prefix(bs1, bs2, v);
            lemma_walk_measure_decreases(bs1, v);
            lemma_walk_prefix(bs1, bs2, binding_of(bs1, v));
        },
        _ => {},
    }
}

/// A prefix of a prefix is a prefix.
pub proof fn lemma_prefix_trans(
    x: Seq<(u64, SpecTerm)>,
    y: Seq<(u64, SpecTerm)>,
    z: Seq<(u64, SpecTerm)>,
)
    requires
        x.is_prefix_of(y),
        y.is_prefix_of(z),
    ensures
        x.is_prefix_of(z),
{
    assert(x =~= z.subrange(0, x.len() as int));
}

/// What a freshly appended binding looks up to.
pub proof fn lemma_binding_push(bs: Seq<(u64, SpecTerm)>, v: u64, t: SpecTerm)
    requires
        !is_bound(bs, v),
    ensures
        is_bound(bs.push((v, t)), v),
        binding_of(bs.push((v, t)), v) == t,
{
    let bs2 = bs.push((v, t));
    assert(bs2[bs.len() as int].0 == v);
    assert(is_bound(bs2, v));
    let i = binding_index(bs2, v);
    assert(0 <= i < bs2.len() && bs2[i].0 == v);
    if i < bs.len() {
        assert(bs[i] == bs2[i]);
        assert(is_bound(bs, v));
    }
}

/// Walking under an extended binding list is walking the original walk
/// result: the chain through the original bindings is unchanged, and the
/// extension can only take over where it left off.
pub proof fn lemma_walk_compose(
    bs: Seq<(u64, SpecTerm)>,
    bsf: Seq<(u64, SpecTerm)>,
    t: SpecTerm,
)
    requires
        wf_bindings(bs),
        wf_bindings(bsf),
        bs.is_prefix_of(bsf),
    ensures
        spec_walk(bsf, t) == spec_walk(bsf, spec_walk(bs, t)),
    decreases walk_measure(bs, t),
{
    match t {
        SpecTerm::Variable(v) => {
            if is_bound(bs, v) {
                lemma_binding_prefix(bs, bsf, v);
                lemma_walk_measure_decreases(bs, v);
                lemma_walk_compose(bs, bsf, binding_of(bs, v));
            }
        },
        _ => {},
    }
}

/// What walking yields: a non-variable term, or an unbound variable.
pub proof fn lemma_walk_result(bs: Seq<(u64, SpecTerm)>, t: SpecTerm)
    requires
        wf_bindings(bs),
    ensures
        spec_walk(bs, t) is Variable ==> !is_bound(bs, spec_walk(bs, t)->Variable_0),
    decreases walk_measure(bs, t),
{
    match t {
        SpecTerm::Variable(v) => if is_bound(bs, v) {
            lemma_walk_measure_decreases(bs, v);
            lemma_walk_result(bs, binding_of(bs, v));
        },
        _ => {},
    }
}

impl State {
    /// Well-formedness: the binding list keeps each variable bound at most
    /// once, and variable-to-variable bindings always point later in the
    /// list, so that resolution chains terminate.
    pub open spec fn wf(self) -> bool {
        wf_bindings(self@.bindings)
    }

    /// The empty state: no bindings, counter zero.
    pub fn new() -> (r: State)
        ensures
            r.wf(),
            r@.bindings =~= Seq::<(u64, SpecTerm)>::empty(),
            r@.count == 0,
    {
        State { bindings: Vec::new(), count: 0 }
    }

    /// A structural copy with the same mathematical value.
    #[verifier::loop_isolation(false)]
    pub fn dup(&self) -> (r: State)
        ensures
            r@ == self@,
    {
        let mut out: Vec<(u64, Term)> = Vec::new();
        let mut i: usize = 0;
        while i < self.bindings.len()
            invariant
                i <= self.bindings@.len(),
                out@.len() == i,
                forall|j: int|
                    0 <= j < i ==> (#[trigger] out@[j]).0 == self.bindings@[j].0 && term_view(
                        out@[j].1,
                    ) == term_view(self.bindings@[j].1),
            decreases self.bindings@.len() - i,
        {
            let (v, t) = (self.bindings[i].0, self.bindings[i].1.dup());
            out.push((v, t));
            i = i + 1;
        }
        let r = State { bindings: out, count: self.count };
        proof {
            assert(pairs_view(out@) =~= pairs_view(self.bindings@));
        }
        r
    }

    /// Looks a variable's own binding up, by linear search.
    #[verifier::loop_isolation(false)]
    pub fn find_binding(&self, v: u64) -> (r: Option<Term>)
        requires
            self.wf(),
        ensures
            match r {
                Some(t) => is_bound(self@.bindings, v) && t@ == binding_of(self@.bindings, v),
                None => !is_bound(self@.bindings, v),
            },
    {
        let mut i: usize = 0;
        while i < self.bindings.len()
            invariant
                i <= self.bindings@.len(),
                forall|j: int| 0 <= j < i ==> (#[trigger] self@.bindings[j]).0 != v,
            decreases self.bindings@.len() - i,
        {
            if self.bindings[i].0 == v {
                let t = self.bindings[i].1.dup();
                proof {
                    let bsv = self@.bindings;
                    assert(bsv[i as int] == (
                        self.bindings@[i as int].0,
                        term_view(self.bindings@[i as int].1),
                    ));
                    assert(bsv[i as int].0 == v);
                    assert(is_bound(bsv, v));
                    let k = binding_index(bsv, v);
                    assert(0 <= k < bsv.len() && bsv[k].0 == v);
                    assert(k == i);
                }
                return Some(t);
            }
            i = i + 1;
        }
        None
    }

    /// Resolves `t` through the bindings: `walk` of the substitution store.
    pub fn get_binding(&self, t: &Term) -> (r: Term)
        requires
            self.wf(),
        ensures
            r@ == spec_walk(self@.bindings, t@),
        decreases walk_measure(self@.bindings, t@),
    {
        if !t.is_var() {
            return t.dup();
        }
        let v = t.unwrap_var();
        match self.find_binding(v) {
            None => t.dup(),
            Some(next) => {
                proof {
                    lemma_walk_measure_decreases(self@.bindings, v);
                }
                self.get_binding(&next)
            },
        }
    }

    /// Appends one binding.  The caller walks both sides first, so the
    /// variable being bound is unbound, and so is the target if the target
    /// is itself a variable; that keeps resolution chains terminating.
    pub fn add_binding(&mut self, v: u64, t: Term)
        requires
            old(self).wf(),
            !is_bound(old(self)@.bindings, v),
            t@ is Variable ==> !is_bound(old(self)@.bindings, t@->Variable_0) && t@->Variable_0
                != v,
        ensures
            final(self).wf(),
            final(self)@.bindings =~= old(self)@.bindings.push((v, t@)),
            final(self)@.count == old(self)@.count,
    {
        let ghost obs = old(self)@.bindings;
        self.bindings.push((v, t));
        proof {
            assert(self@.bindings =~= obs.push((v, t@)));
            lemma_wf_push(obs, v, t@);
        }
    }

    /// Allocates the next counter value as a fresh variable identifier.
    pub fn fresh_variable(&mut self) -> (v: u64)
        requires
            old(self).wf(),
            old(self)@.count < u64::MAX,
        ensures
            final(self).wf(),
            v == old(self)@.count,
            final(self)@.count == old(self)@.count + 1,
            final(self)@.bindings == old(self)@.bindings,
    {
        let v = self.count;
        self.count = self.count + 1;
        v
    }
}

} // verus!
