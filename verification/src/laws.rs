//! Properties of the engine, stated over the specification functions and
//! proved once and for all.

use vstd::prelude::*;
use crate::term::SpecTerm;
use crate::state::SpecState;
use crate::state::wf_bindings;
use crate::state::spec_walk;
use crate::state::lemma_walk_prefix;
use crate::state::lemma_walk_compose;
use crate::state::lemma_walk_result;
use crate::state::lemma_prefix_trans;
use crate::state::lemma_binding_push;
use crate::state::lemma_binding_prefix;
use crate::unify::SpecUnify;
use crate::unify::spec_unify;
use crate::unify::spec_unify_seq;
use crate::unify::UNIFY_FUEL;
use crate::unify::lemma_unify_wf;
use crate::unify::lemma_unify_extends;
use crate::unify::lemma_unify_seq_extends;
use crate::goal::SpecGoal;
use crate::stream::SpecStream;
use crate::stream::SpecStep;
use crate::stream::spec_step;
use crate::stream::spec_solve;

verus! {

/// Whether `t` resolves fully within depth `k`: walking it, and recursively
/// every sub-term of the compound it walks to, reaches variables and atoms
/// before the depth runs out, and never a binder reference.
pub open spec fn resolvable(bs: Seq<(u64, SpecTerm)>, t: SpecTerm, k: nat) -> bool
    decreases k, 0int,
{
    if k == 0 {
        false
    } else {
        match spec_walk(bs, t) {
            SpecTerm::Compound(_f, args) => resolvable_seq(bs, args, (k - 1) as nat),
            SpecTerm::Bound(_) => false,
            _ => true,
        }
    }
}

/// `resolvable`, over every element of a sequence of sub-terms.
pub open spec fn resolvable_seq(bs: Seq<(u64, SpecTerm)>, s: Seq<SpecTerm>, k: nat) -> bool
    decreases k, s.len() + 1,
{
    if s.len() == 0 {
        true
    } else {
        resolvable(bs, s[0], k) && resolvable_seq(bs, s.drop_first(), k)
    }
}

/// Whether `t` resolves to a ground value within depth `k`: as
/// `resolvable`, but the resolution must bottom out in atoms alone, never
/// in an unbound variable or a binder reference.
pub open spec fn grounded(bs: Seq<(u64, SpecTerm)>, t: SpecTerm, k: nat) -> bool
    decreases k, 0int,
{
    if k == 0 {
        false
    } else {
        match spec_walk(bs, t) {
            SpecTerm::Compound(_f, args) => grounded_seq(bs, args, (k - 1) as nat),
            SpecTerm::Atom(_) => true,
            _ => false,
        }
    }
}

/// `grounded`, over every element of a sequence of sub-terms.
pub open spec fn grounded_seq(bs: Seq<(u64, SpecTerm)>, s: Seq<SpecTerm>, k: nat) -> bool
    decreases k, s.len() + 1,
{
    if s.len() == 0 {
        true
    } else {
        grounded(bs, s[0], k) && grounded_seq(bs, s.drop_first(), k)
    }
}

/// A ground resolution never passes through an unbound variable, so it is
/// untouched by any bindings added later: groundedness survives any
/// well-formed extension of the binding list.
pub proof fn lemma_grounded_prefix(
    bs1: Seq<(u64, SpecTerm)>,
    bs2: Seq<(u64, SpecTerm)>,
    t: SpecTerm,
    k: nat,
)
    requires
        wf_bindings(bs1),
        wf_bindings(bs2),
        bs1.is_prefix_of(bs2),
        grounded(bs1, t, k),
    ensures
        grounded(bs2, t, k),
    decreases k, 0int,
{
    lemma_walk_prefix(bs1, bs2, t);
    match spec_walk(bs1, t) {
        SpecTerm::Compound(_f, args) => {
            lemma_grounded_seq_prefix(bs1, bs2, args, (k - 1) as nat);
        },
        _ => {},
    }
}

/// As `lemma_grounded_prefix`, for sub-term sequences.
pub proof fn lemma_grounded_seq_prefix(
    bs1: Seq<(u64, SpecTerm)>,
    bs2: Seq<(u64, SpecTerm)>,
    s: Seq<SpecTerm>,
    k: nat,
)
    requires
        wf_bindings(bs1),
        wf_bindings(bs2),
        bs1.is_prefix_of(bs2),
        grounded_seq(bs1, s, k),
    ensures
        grounded_seq(bs2, s, k),
    decreases k, s.len() + 1,
{
    if s.len() > 0 {
        lemma_grounded_prefix(bs1, bs2, s[0], k);
        lemma_grounded_seq_prefix(bs1, bs2, s.drop_first(), k);
    }
}

/// On ground data the depth budget always decides: when either term
/// resolves to a ground value within the budget, unification with any
/// other term is never reported undecided.  So against a ground term,
/// `None` from `unify` means that no unifier exists, not that the engine
/// gave up.  No such law can hold with `resolvable` in place of
/// `grounded`: from the empty state, unifying `f(x, x)` with
/// `f(g(x), g(g(x)))` — both sides resolvable — first binds `x` to `g(x)`
/// and then compares `x` with `g(g(x))` forever, so every budget is
/// exhausted.
pub proof fn lemma_unify_decides(bs: Seq<(u64, SpecTerm)>, a: SpecTerm, b: SpecTerm, k: nat)
    requires
        wf_bindings(bs),
        grounded(bs, a, k) || grounded(bs, b, k),
    ensures
        spec_unify(bs, a, b, k) != SpecUnify::Stuck,
    decreases k, 0int,
{
    let wa = spec_walk(bs, a);
    let wb = spec_walk(bs, b);
    match (wa, wb) {
        (SpecTerm::Compound(f, xs), SpecTerm::Compound(g, ys)) => {
            if f == g && xs.len() == ys.len() {
                lemma_unify_seq_decides(bs, xs, ys, (k - 1) as nat);
            }
        },
        _ => {},
    }
}

/// As `lemma_unify_decides`, for sub-term sequences: the bindings an
/// earlier pair adds cannot reach into a ground resolution, so the ground
/// side keeps deciding every later pair.
pub proof fn lemma_unify_seq_decides(
    bs: Seq<(u64, SpecTerm)>,
    xs: Seq<SpecTerm>,
    ys: Seq<SpecTerm>,
    k: nat,
)
    requires
        wf_bindings(bs),
        xs.len() == ys.len(),
        grounded_seq(bs, xs, k) || grounded_seq(bs, ys, k),
    ensures
        spec_unify_seq(bs, xs, ys, k) != SpecUnify::Stuck,
    decreases k, xs.len() + 1,
{
    if xs.len() > 0 {
        lemma_unify_decides(bs, xs[0], ys[0], k);
        match spec_unify(bs, xs[0], ys[0], k) {
            SpecUnify::Done(b2) => {
                lemma_unify_wf(bs, xs[0], ys[0], k);
                lemma_unify_extends(bs, xs[0], ys[0], k);
                if grounded_seq(bs, xs, k) {
                    lemma_grounded_seq_prefix(bs, b2, xs.drop_first(), k);
                } else {
                    lemma_grounded_seq_prefix(bs, b2, ys.drop_first(), k);
                }
                lemma_unify_seq_decides(b2, xs.drop_first(), ys.drop_first(), k);
            },
            _ => {},
        }
    }
}

/// `lemma_unify_decides` at the suggested default budget: a caller of
/// `unify` that passes `UNIFY_FUEL` gets `None` only as genuine failure
/// against a term ground within that depth.
pub proof fn lemma_unify_default_decides(bs: Seq<(u64, SpecTerm)>, a: SpecTerm, b: SpecTerm)
    requires
        wf_bindings(bs),
        grounded(bs, a, UNIFY_FUEL as nat) || grounded(bs, b, UNIFY_FUEL as nat),
    ensures
        spec_unify(bs, a, b, UNIFY_FUEL as nat) is Done || spec_unify(
            bs,
            a,
            b,
            UNIFY_FUEL as nat,
        ) is Fail,
{
    lemma_unify_decides(bs, a, b, UNIFY_FUEL as nat);
}

/// Whether `a` and `b` resolve, within depth `k`, to structurally
/// identical terms: their walks agree — same variable, same atom, or
/// compounds with one tag and arity whose sub-terms resolve identical in
/// turn.
pub open spec fn res_eq(bs: Seq<(u64, SpecTerm)>, a: SpecTerm, b: SpecTerm, k: nat) -> bool
    decreases k, 0int,
{
    if k == 0 {
        false
    } else {
        match (spec_walk(bs, a), spec_walk(bs, b)) {
            (SpecTerm::Variable(x), SpecTerm::Variable(y)) => x == y,
            (SpecTerm::Atom(p), SpecTerm::Atom(q)) => p == q,
            (SpecTerm::Compound(f, xs), SpecTerm::Compound(g, ys)) => f == g && xs.len()
                == ys.len() && res_eq_seq(bs, xs, ys, (k - 1) as nat),
            _ => false,
        }
    }
}

/// `res_eq`, pairwise over two sub-term sequences.
pub open spec fn res_eq_seq(
    bs: Seq<(u64, SpecTerm)>,
    xs: Seq<SpecTerm>,
    ys: Seq<SpecTerm>,
    k: nat,
) -> bool
    decreases k, xs.len() + 1,
{
    if xs.len() == 0 {
        true
    } else {
        res_eq(bs, xs[0], ys[0], k) && res_eq_seq(bs, xs.drop_first(), ys.drop_first(), k)
    }
}

/// Two terms with one and the same walk resolve identical, as deep as
/// either resolves at all.
pub proof fn lemma_res_eq_of_walk_eq(bs: Seq<(u64, SpecTerm)>, a: SpecTerm, b: SpecTerm, k: nat)
    requires
        wf_bindings(bs),
        spec_walk(bs, a) == spec_walk(bs, b),
        resolvable(bs, a, k),
    ensures
        res_eq(bs, a, b, k),
    decreases k, 0int,
{
    match spec_walk(bs, a) {
        SpecTerm::Compound(_f, args) => {
            lemma_res_eq_seq_refl(bs, args, (k - 1) as nat);
        },
        _ => {},
    }
}

/// A sub-term sequence resolves identical to itself, as deep as it
/// resolves at all.
pub proof fn lemma_res_eq_seq_refl(bs: Seq<(u64, SpecTerm)>, s: Seq<SpecTerm>, k: nat)
    requires
        wf_bindings(bs),
        resolvable_seq(bs, s, k),
    ensures
        res_eq_seq(bs, s, s, k),
    decreases k, s.len() + 1,
{
    if s.len() > 0 {
        lemma_res_eq_of_walk_eq(bs, s[0], s[0], k);
        lemma_res_eq_seq_refl(bs, s.drop_first(), k);
    }
}

/// Unification soundness: after a successful unification, the two terms
/// resolve to structurally identical terms through the resulting bindings
/// — and still do through any further well-formed extension of them —
/// wherever that resolution is finite.  After an occurs-check-free
/// success such as a variable with a compound containing it, no finite
/// resolution exists and the claim says nothing.
pub proof fn lemma_unify_sound(
    bs: Seq<(u64, SpecTerm)>,
    a: SpecTerm,
    b: SpecTerm,
    k: nat,
    bsf: Seq<(u64, SpecTerm)>,
    j: nat,
)
    requires
        wf_bindings(bs),
        wf_bindings(bsf),
        spec_unify(bs, a, b, k) is Done,
        spec_unify(bs, a, b, k)->Done_0.is_prefix_of(bsf),
        resolvable(bsf, a, j),
        resolvable(bsf, b, j),
    ensures
        res_eq(bsf, a, b, j),
    decreases k, 0int,
{
    let wa = spec_walk(bs, a);
    let wb = spec_walk(bs, b);
    lemma_unify_extends(bs, a, b, k);
    lemma_prefix_trans(bs, spec_unify(bs, a, b, k)->Done_0, bsf);
    lemma_walk_compose(bs, bsf, a);
    lemma_walk_compose(bs, bsf, b);
    lemma_walk_result(bs, a);
    lemma_walk_result(bs, b);
    match (wa, wb) {
        (SpecTerm::Variable(x), SpecTerm::Variable(y)) => {
            if x == y {
                lemma_res_eq_of_walk_eq(bsf, a, b, j);
            } else {
                lemma_binding_push(bs, x, wb);
                lemma_binding_prefix(bs.push((x, wb)), bsf, x);
                lemma_res_eq_of_walk_eq(bsf, a, b, j);
            }
        },
        (SpecTerm::Variable(x), _) => {
            lemma_binding_push(bs, x, wb);
            lemma_binding_prefix(bs.push((x, wb)), bsf, x);
            lemma_res_eq_of_walk_eq(bsf, a, b, j);
        },
        (_, SpecTerm::Variable(y)) => {
            lemma_binding_push(bs, y, wa);
            lemma_binding_prefix(bs.push((y, wa)), bsf, y);
            lemma_res_eq_of_walk_eq(bsf, a, b, j);
        },
        (SpecTerm::Atom(_p), SpecTerm::Atom(_q)) => {
            lemma_res_eq_of_walk_eq(bsf, a, b, j);
        },
        (SpecTerm::Compound(f, xs), SpecTerm::Compound(g, ys)) => {
            lemma_unify_sound_seq(bs, xs, ys, (k - 1) as nat, bsf, (j - 1) as nat);
        },
        _ => {},
    }
}

/// As `lemma_unify_sound`, for sub-term sequences.
pub proof fn lemma_unify_sound_seq(
    bs: Seq<(u64, SpecTerm)>,
    xs: Seq<SpecTerm>,
    ys: Seq<SpecTerm>,
    k: nat,
    bsf: Seq<(u64, SpecTerm)>,
    j: nat,
)
    requires
        wf_bindings(bs),
        wf_bindings(bsf),
        xs.len() == ys.len(),
        spec_unify_seq(bs, xs, ys, k) is Done,
        spec_unify_seq(bs, xs, ys, k)->Done_0.is_prefix_of(bsf),
        resolvable_seq(bsf, xs, j),
        resolvable_seq(bsf, ys, j),
    ensures
        res_eq_seq(bsf, xs, ys, j),
    decreases k, xs.len() + 1,
{
    if xs.len() > 0 {
        match spec_unify(bs, xs[0], ys[0], k) {
            SpecUnify::Done(b2) => {
                lemma_unify_wf(bs, xs[0], ys[0], k);
                lemma_unify_seq_extends(b2, xs.drop_first(), ys.drop_first(), k);
                lemma_prefix_trans(
                    b2,
                    spec_unify_seq(b2, xs.drop_first(), ys.drop_first(), k)->Done_0,
                    bsf,
                );
                lemma_unify_sound(bs, xs[0], ys[0], k, bsf, j);
                lemma_unify_sound_seq(b2, xs.drop_first(), ys.drop_first(), k, bsf, j);
            },
            _ => {},
        }
    }
}

/// No needless binding: terms that already resolve to identical values
/// unify with the state returned unchanged — a binding is added only
/// where the two sides differ.
pub proof fn lemma_unify_of_res_eq(bs: Seq<(u64, SpecTerm)>, a: SpecTerm, b: SpecTerm, k: nat)
    requires
        wf_bindings(bs),
        res_eq(bs, a, b, k),
    ensures
        spec_unify(bs, a, b, k) == SpecUnify::Done(bs),
    decreases k, 0int,
{
    match (spec_walk(bs, a), spec_walk(bs, b)) {
        (SpecTerm::Compound(_f, xs), SpecTerm::Compound(_g, ys)) => {
            lemma_unify_seq_of_res_eq(bs, xs, ys, (k - 1) as nat);
        },
        _ => {},
    }
}

/// As `lemma_unify_of_res_eq`, for sub-term sequences: the threaded state
/// never changes.
pub proof fn lemma_unify_seq_of_res_eq(
    bs: Seq<(u64, SpecTerm)>,
    xs: Seq<SpecTerm>,
    ys: Seq<SpecTerm>,
    k: nat,
)
    requires
        wf_bindings(bs),
        xs.len() == ys.len(),
        res_eq_seq(bs, xs, ys, k),
    ensures
        spec_unify_seq(bs, xs, ys, k) == SpecUnify::Done(bs),
    decreases k, xs.len() + 1,
{
    if xs.len() > 0 {
        lemma_unify_of_res_eq(bs, xs[0], ys[0], k);
        lemma_unify_seq_of_res_eq(bs, xs.drop_first(), ys.drop_first(), k);
    }
}

/// Unify reflexivity: unifying a term with itself succeeds and returns the
/// state unchanged — no binding is added even when the term is an unbound
/// variable, since both sides walk to the same variable.
pub proof fn lemma_unify_refl(bs: Seq<(u64, SpecTerm)>, t: SpecTerm, k: nat)
    requires
        wf_bindings(bs),
        resolvable(bs, t, k),
    ensures
        spec_unify(bs, t, t, k) == SpecUnify::Done(bs),
    decreases k, 0int,
{
    match spec_walk(bs, t) {
        SpecTerm::Compound(_f, args) => {
            lemma_unify_refl_seq(bs, args, (k - 1) as nat);
        },
        _ => {},
    }
}

/// As `lemma_unify_refl`, for the pairwise unification of a sub-term
/// sequence with itself: the threaded state never changes.
pub proof fn lemma_unify_refl_seq(bs: Seq<(u64, SpecTerm)>, s: Seq<SpecTerm>, k: nat)
    requires
        wf_bindings(bs),
        resolvable_seq(bs, s, k),
    ensures
        spec_unify_seq(bs, s, s, k) == SpecUnify::Done(bs),
    decreases k, s.len() + 1,
{
    if s.len() > 0 {
        lemma_unify_refl(bs, s[0], k);
        lemma_unify_refl_seq(bs, s.drop_first(), k);
    }
}

/// Unify symmetry, for the cases decided without recursion (the two walked
/// terms are not both compounds): unifying `a` with `b` succeeds exactly
/// when unifying `b` with `a` does, and the two resulting states have the
/// same number of bindings — they can differ only in which of two unbound
/// variables received the one new binding.
pub proof fn lemma_unify_sym(bs: Seq<(u64, SpecTerm)>, a: SpecTerm, b: SpecTerm, k: nat)
    requires
        wf_bindings(bs),
        k >= 1,
        !(spec_walk(bs, a) is Compound && spec_walk(bs, b) is Compound),
    ensures
        spec_unify(bs, a, b, k) is Done <==> spec_unify(bs, b, a, k) is Done,
        spec_unify(bs, a, b, k) is Fail <==> spec_unify(bs, b, a, k) is Fail,
        spec_unify(bs, a, b, k) is Done ==> spec_unify(bs, a, b, k)->Done_0.len() == spec_unify(
            bs,
            b,
            a,
            k,
        )->Done_0.len(),
{
}

/// Compound tag or arity mismatch always fails: two compounds with
/// different tags, or with different numbers of sub-terms, never unify,
/// whatever the state and the depth budget.
pub proof fn lemma_compound_mismatch(
    bs: Seq<(u64, SpecTerm)>,
    f: u64,
    xs: Seq<SpecTerm>,
    g: u64,
    ys: Seq<SpecTerm>,
    k: nat,
)
    requires
        wf_bindings(bs),
        k >= 1,
        f != g || xs.len() != ys.len(),
    ensures
        spec_unify(bs, SpecTerm::Compound(f, xs), SpecTerm::Compound(g, ys), k)
            == SpecUnify::Fail,
{
}

/// Whether the stream yields the state `st` within `k` steps.
pub open spec fn spec_yields(ss: SpecStream, st: SpecState, k: nat, fuel: nat) -> bool
    decreases k,
{
    if k == 0 {
        false
    } else {
        match spec_step(ss, fuel) {
            SpecStep::Done => false,
            SpecStep::Out(st2, rest) => st2 == st || spec_yields(rest, st, (k - 1) as nat, fuel),
            SpecStep::More(s2) => spec_yields(s2, st, (k - 1) as nat, fuel),
        }
    }
}

/// A state yielded within `k` steps is yielded within any larger budget.
pub proof fn lemma_yields_mono(ss: SpecStream, st: SpecState, k1: nat, k2: nat, fuel: nat)
    requires
        spec_yields(ss, st, k1, fuel),
        k1 <= k2,
    ensures
        spec_yields(ss, st, k2, fuel),
    decreases k1,
{
    match spec_step(ss, fuel) {
        SpecStep::Done => {},
        SpecStep::Out(st2, rest) => {
            if st2 != st {
                lemma_yields_mono(rest, st, (k1 - 1) as nat, (k2 - 1) as nat, fuel);
            }
        },
        SpecStep::More(s2) => {
            lemma_yields_mono(s2, st, (k1 - 1) as nat, (k2 - 1) as nat, fuel);
        },
    }
}

/// Fairness of the interleaving merge, second branch: whatever stands in
/// the first branch — productive forever or never — a state that the
/// second branch alone yields within `k` steps is yielded by the merge
/// within `2 * k` steps.
pub proof fn lemma_mplus_fair_right(s1: SpecStream, s2: SpecStream, st: SpecState, k: nat, fuel: nat)
    requires
        spec_yields(s2, st, k, fuel),
    ensures
        spec_yields(SpecStream::MPlus(Box::new(s1), Box::new(s2)), st, 2 * k, fuel),
    decreases k, 1int,
{
    let m = SpecStream::MPlus(Box::new(s1), Box::new(s2));
    match spec_step(s1, fuel) {
        SpecStep::Done => {
            lemma_yields_mono(s2, st, k, (2 * k - 1) as nat, fuel);
            assert(spec_step(m, fuel) == SpecStep::More(s2));
        },
        SpecStep::Out(st1, rest) => {
            if st1 != st {
                lemma_mplus_fair_left(s2, rest, st, k, fuel);
            }
        },
        SpecStep::More(s1p) => {
            lemma_mplus_fair_left(s2, s1p, st, k, fuel);
        },
    }
}

/// Fairness of the interleaving merge, first branch: a state the first
/// branch alone yields within `k` steps is yielded by the merge within
/// `2 * k - 1` steps.
pub proof fn lemma_mplus_fair_left(s1: SpecStream, s2: SpecStream, st: SpecState, k: nat, fuel: nat)
    requires
        spec_yields(s1, st, k, fuel),
    ensures
        spec_yields(SpecStream::MPlus(Box::new(s1), Box::new(s2)), st, (2 * k - 1) as nat, fuel),
    decreases k, 0int,
{
    let m = SpecStream::MPlus(Box::new(s1), Box::new(s2));
    match spec_step(s1, fuel) {
        SpecStep::Done => {},
        SpecStep::Out(st1, rest) => {
            if st1 != st {
                lemma_mplus_fair_right(s2, rest, st, (k - 1) as nat, fuel);
            }
        },
        SpecStep::More(s1p) => {
            lemma_mplus_fair_right(s2, s1p, st, (k - 1) as nat, fuel);
        },
    }
}

/// A state the interleaving merge yields, one of the two branches yields
/// alone, within the same number of steps.
pub proof fn lemma_mplus_yields_split(a: SpecStream, b: SpecStream, st: SpecState, k: nat, fuel: nat)
    requires
        spec_yields(SpecStream::MPlus(Box::new(a), Box::new(b)), st, k, fuel),
    ensures
        spec_yields(a, st, k, fuel) || spec_yields(b, st, k, fuel),
    decreases k,
{
    match spec_step(a, fuel) {
        SpecStep::Done => {
            lemma_yields_mono(b, st, (k - 1) as nat, k, fuel);
        },
        SpecStep::Out(st1, rest) => {
            if st1 != st {
                lemma_mplus_yields_split(b, rest, st, (k - 1) as nat, fuel);
                if spec_yields(b, st, (k - 1) as nat, fuel) {
                    lemma_yields_mono(b, st, (k - 1) as nat, k, fuel);
                }
            }
        },
        SpecStep::More(a2) => {
            lemma_mplus_yields_split(b, a2, st, (k - 1) as nat, fuel);
            if spec_yields(b, st, (k - 1) as nat, fuel) {
                lemma_yields_mono(b, st, (k - 1) as nat, k, fuel);
            }
        },
    }
}

/// Whether the stream yields the state `st` after some number of steps:
/// membership in the stream's solution set.
pub open spec fn in_sols(ss: SpecStream, st: SpecState, fuel: nat) -> bool {
    exists|k: nat| spec_yields(ss, st, k, fuel)
}

/// Feeding a stream to a further goal yields only states that the goal
/// reaches from some state of the stream.
pub proof fn lemma_bind_sound(s: SpecStream, e: Seq<u64>, g: SpecGoal, st: SpecState, k: nat, fuel: nat)
    requires
        spec_yields(SpecStream::Bind(Box::new(s), e, g), st, k, fuel),
    ensures
        exists|st1: SpecState|
            in_sols(s, st1, fuel) && in_sols(SpecStream::Suspend(st1, e, g), st, fuel),
    decreases k,
{
    match spec_step(s, fuel) {
        SpecStep::Done => {},
        SpecStep::Out(st1, rest) => {
            let first = SpecStream::Suspend(st1, e, g);
            let second = SpecStream::Bind(Box::new(rest), e, g);
            lemma_mplus_yields_split(first, second, st, (k - 1) as nat, fuel);
            if spec_yields(first, st, (k - 1) as nat, fuel) {
                assert(spec_yields(s, st1, 1, fuel));
                assert(in_sols(s, st1, fuel) && in_sols(first, st, fuel));
            } else {
                lemma_bind_sound(rest, e, g, st, (k - 1) as nat, fuel);
                let st2 = choose|st2: SpecState|
                    in_sols(rest, st2, fuel) && in_sols(SpecStream::Suspend(st2, e, g), st, fuel);
                let n = choose|n: nat| spec_yields(rest, st2, n, fuel);
                assert(spec_yields(s, st2, n + 1, fuel));
                assert(in_sols(s, st2, fuel) && in_sols(SpecStream::Suspend(st2, e, g), st, fuel));
            }
        },
        SpecStep::More(s2) => {
            lemma_bind_sound(s2, e, g, st, (k - 1) as nat, fuel);
            let st2 = choose|st2: SpecState|
                in_sols(s2, st2, fuel) && in_sols(SpecStream::Suspend(st2, e, g), st, fuel);
            let n = choose|n: nat| spec_yields(s2, st2, n, fuel);
            assert(spec_yields(s, st2, n + 1, fuel));
            assert(in_sols(s, st2, fuel) && in_sols(SpecStream::Suspend(st2, e, g), st, fuel));
        },
    }
}

/// Feeding a stream to a further goal yields every state that the goal
/// reaches from any state of the stream: thanks to the fair merge, no
/// answer of the stream and no answer of the goal is lost.
pub proof fn lemma_bind_complete(
    s: SpecStream,
    e: Seq<u64>,
    g: SpecGoal,
    st1: SpecState,
    st: SpecState,
    k: nat,
    fuel: nat,
)
    requires
        spec_yields(s, st1, k, fuel),
        in_sols(SpecStream::Suspend(st1, e, g), st, fuel),
    ensures
        in_sols(SpecStream::Bind(Box::new(s), e, g), st, fuel),
    decreases k,
{
    let bnd = SpecStream::Bind(Box::new(s), e, g);
    match spec_step(s, fuel) {
        SpecStep::Done => {},
        SpecStep::Out(st1p, rest) => {
            let first = SpecStream::Suspend(st1p, e, g);
            let second = SpecStream::Bind(Box::new(rest), e, g);
            if st1p == st1 {
                let j = choose|j: nat| spec_yields(SpecStream::Suspend(st1, e, g), st, j, fuel);
                lemma_mplus_fair_left(first, second, st, j, fuel);
                assert(spec_yields(bnd, st, (((2 * j - 1) as nat) + 1) as nat, fuel));
            } else {
                lemma_bind_complete(rest, e, g, st1, st, (k - 1) as nat, fuel);
                let n = choose|n: nat| spec_yields(second, st, n, fuel);
                lemma_mplus_fair_right(first, second, st, n, fuel);
                assert(spec_yields(bnd, st, 2 * n + 1, fuel));
            }
        },
        SpecStep::More(s2) => {
            lemma_bind_complete(s2, e, g, st1, st, (k - 1) as nat, fuel);
            let n = choose|n: nat| spec_yields(SpecStream::Bind(Box::new(s2), e, g), st, n, fuel);
            assert(spec_yields(bnd, st, n + 1, fuel));
        },
    }
}

/// A state yielded within `k` steps stands in what the bounded driver
/// pulls, whenever the driver is allowed `k` steps and at least `k`
/// solutions: together with the fairness results, a solution reached by
/// either branch of a disjunction appears in a large enough finite prefix.
pub proof fn lemma_yields_solved(ss: SpecStream, st: SpecState, k: nat, n: nat, fuel: nat)
    requires
        spec_yields(ss, st, k, fuel),
        n >= k,
    ensures
        spec_solve(ss, n, k, fuel).contains(st),
    decreases k,
{
    match spec_step(ss, fuel) {
        SpecStep::Done => {},
        SpecStep::Out(st2, rest) => {
            let tail = spec_solve(rest, (n - 1) as nat, (k - 1) as nat, fuel);
            assert(spec_solve(ss, n, k, fuel) == seq![st2] + tail);
            if st2 == st {
                assert((seq![st2] + tail)[0] == st);
            } else {
                lemma_yields_solved(rest, st, (k - 1) as nat, (n - 1) as nat, fuel);
                let i = choose|i: int| 0 <= i < tail.len() && tail[i] == st;
                assert((seq![st2] + tail)[1 + i] == st);
            }
        },
        SpecStep::More(s2) => {
            lemma_yields_solved(s2, st, (k - 1) as nat, n, fuel);
            assert(spec_solve(ss, n, k, fuel) == spec_solve(
                s2,
                n,
                (k - 1) as nat, fuel,
));
        },
    }
}

/// What a conjunction yields: exactly the states its right goal reaches
/// from some state its left goal reaches first.
pub proof fn lemma_conj_sols(
    st0: SpecState,
    e: Seq<u64>,
    ga: SpecGoal,
    gb: SpecGoal,
    st: SpecState,
    fuel: nat,
)
    ensures
        in_sols(SpecStream::Suspend(st0, e, SpecGoal::Conj(Box::new(ga), Box::new(gb))), st, fuel)
            <==> exists|st1: SpecState|
            in_sols(SpecStream::Suspend(st0, e, ga), st1, fuel) && in_sols(
                SpecStream::Suspend(st1, e, gb),
                st, fuel,
),
{
    let conj_stream = SpecStream::Suspend(
        st0,
        e,
        SpecGoal::Conj(Box::new(ga), Box::new(gb)),
    );
    let left = SpecStream::Suspend(st0, e, ga);
    let bind_stream = SpecStream::Bind(Box::new(left), e, gb);
    assert(spec_step(conj_stream, fuel) == SpecStep::More(bind_stream));
    if in_sols(conj_stream, st, fuel) {
        let k = choose|k: nat| spec_yields(conj_stream, st, k, fuel);
        lemma_bind_sound(left, e, gb, st, (k - 1) as nat, fuel);
    }
    if exists|st1: SpecState|
        in_sols(left, st1, fuel) && in_sols(SpecStream::Suspend(st1, e, gb), st, fuel) {
        let st1 = choose|st1: SpecState|
            in_sols(left, st1, fuel) && in_sols(SpecStream::Suspend(st1, e, gb), st, fuel);
        let k = choose|k: nat| spec_yields(left, st1, k, fuel);
        lemma_bind_complete(left, e, gb, st1, st, k, fuel);
        let n = choose|n: nat| spec_yields(bind_stream, st, n, fuel);
        assert(spec_yields(conj_stream, st, n + 1, fuel));
    }
}

/// Conjunction is associative under solution sets: however a chain of
/// three goals is parenthesised, exactly the same states can be pulled
/// from its stream — only the order of their exposure may differ.
pub proof fn lemma_conj_assoc(
    st0: SpecState,
    e: Seq<u64>,
    g1: SpecGoal,
    g2: SpecGoal,
    g3: SpecGoal,
    st: SpecState,
    fuel: nat,
)
    ensures
        in_sols(
            SpecStream::Suspend(
                st0,
                e,
                SpecGoal::Conj(
                    Box::new(SpecGoal::Conj(Box::new(g1), Box::new(g2))),
                    Box::new(g3),
                ),
            ),
            st, fuel,
) <==> in_sols(
            SpecStream::Suspend(
                st0,
                e,
                SpecGoal::Conj(
                    Box::new(g1),
                    Box::new(SpecGoal::Conj(Box::new(g2), Box::new(g3))),
                ),
            ),
            st, fuel,
),
{
    let g12 = SpecGoal::Conj(Box::new(g1), Box::new(g2));
    let g23 = SpecGoal::Conj(Box::new(g2), Box::new(g3));
    let lhs = SpecStream::Suspend(st0, e, SpecGoal::Conj(Box::new(g12), Box::new(g3)));
    let rhs = SpecStream::Suspend(st0, e, SpecGoal::Conj(Box::new(g1), Box::new(g23)));
    lemma_conj_sols(st0, e, g12, g3, st, fuel);
    lemma_conj_sols(st0, e, g1, g23, st, fuel);
    if in_sols(lhs, st, fuel) {
        let st1 = choose|st1: SpecState|
            in_sols(SpecStream::Suspend(st0, e, g12), st1, fuel) && in_sols(
                SpecStream::Suspend(st1, e, g3),
                st, fuel,
);
        lemma_conj_sols(st0, e, g1, g2, st1, fuel);
        let sm = choose|sm: SpecState|
            in_sols(SpecStream::Suspend(st0, e, g1), sm, fuel) && in_sols(
                SpecStream::Suspend(sm, e, g2),
                st1, fuel,
);
        lemma_conj_sols(sm, e, g2, g3, st, fuel);
        assert(exists|t: SpecState|
            in_sols(SpecStream::Suspend(sm, e, g2), t, fuel) && in_sols(
                SpecStream::Suspend(t, e, g3),
                st, fuel,
)) by {
            assert(in_sols(SpecStream::Suspend(sm, e, g2), st1, fuel) && in_sols(
                SpecStream::Suspend(st1, e, g3),
                st, fuel,
));
        }
        assert(exists|t: SpecState|
            in_sols(SpecStream::Suspend(st0, e, g1), t, fuel) && in_sols(
                SpecStream::Suspend(t, e, g23),
                st, fuel,
)) by {
            assert(in_sols(SpecStream::Suspend(st0, e, g1), sm, fuel) && in_sols(
                SpecStream::Suspend(sm, e, g23),
                st, fuel,
));
        }
    }
    if in_sols(rhs, st, fuel) {
        let sm = choose|sm: SpecState|
            in_sols(SpecStream::Suspend(st0, e, g1), sm, fuel) && in_sols(
                SpecStream::Suspend(sm, e, g23),
                st, fuel,
);
        lemma_conj_sols(sm, e, g2, g3, st, fuel);
        let st1 = choose|st1: SpecState|
            in_sols(SpecStream::Suspend(sm, e, g2), st1, fuel) && in_sols(
                SpecStream::Suspend(st1, e, g3),
                st, fuel,
);
        lemma_conj_sols(st0, e, g1, g2, st1, fuel);
        assert(exists|t: SpecState|
            in_sols(SpecStream::Suspend(st0, e, g1), t, fuel) && in_sols(
                SpecStream::Suspend(t, e, g2),
                st1, fuel,
)) by {
            assert(in_sols(SpecStream::Suspend(st0, e, g1), sm, fuel) && in_sols(
                SpecStream::Suspend(sm, e, g2),
                st1, fuel,
));
        }
        assert(exists|t: SpecState|
            in_sols(SpecStream::Suspend(st0, e, g12), t, fuel) && in_sols(
                SpecStream::Suspend(t, e, g3),
                st, fuel,
)) by {
            assert(in_sols(SpecStream::Suspend(st0, e, g12), st1, fuel) && in_sols(
                SpecStream::Suspend(st1, e, g3),
                st, fuel,
));
        }
    }
}

/// Disjunction fairness: if the right goal alone yields the state `st`
/// within `k` steps, the disjunction of any left goal with it yields `st`
/// within `2 * k + 1` steps — even a left branch with infinitely many
/// answers cannot starve the right branch.
pub proof fn lemma_disj_fair(
    st0: SpecState,
    env: Seq<u64>,
    g1: SpecGoal,
    g2: SpecGoal,
    st: SpecState,
    k: nat,
    fuel: nat,
)
    requires
        spec_yields(SpecStream::Suspend(st0, env, g2), st, k, fuel),
    ensures
        spec_yields(
            SpecStream::Suspend(st0, env, SpecGoal::Disj(Box::new(g1), Box::new(g2))),
            st,
            2 * k + 1, fuel,
),
{
    let left = SpecStream::Suspend(st0, env, g1);
    let right = SpecStream::Suspend(st0, env, g2);
    let d = SpecStream::Suspend(st0, env, SpecGoal::Disj(Box::new(g1), Box::new(g2)));
    lemma_mplus_fair_right(left, right, st, k, fuel);
    assert(spec_step(d, fuel) == SpecStep::More(
        SpecStream::MPlus(Box::new(left), Box::new(right)),
    ));
}

} // verus!
