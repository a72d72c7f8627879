//! The stream of answers of a goal, and the step-driven search over it.
//!
//! A stream is a suspended search: stepping it either produces one
//! succeeding state, makes progress without an answer yet, or reports that
//! the stream is exhausted.  Disjunction merges two streams by fair
//! interleaving — each step advances the first branch and then swaps the
//! branches — so an unproductive or long-running branch cannot starve its
//! sibling.  Conjunction feeds every answer of the left goal to the right
//! goal and merges the resulting streams the same way.

use vstd::prelude::*;
use crate::state::State;
use crate::state::SpecState;
use crate::state::wf_bindings;
use crate::goal::Goal;
use crate::goal::SpecGoal;
use crate::goal::goal_view;
use crate::goal::spec_resolve;
use crate::goal::resolve_term;
use crate::goal::dup_env;
use crate::unify::SpecUnify;
use crate::unify::spec_unify;

verus! {

/// A lazily produced sequence of succeeding states.
pub enum Stream {
    /// No answers at all.
    Empty,
    /// A goal not yet applied: the state it will run in, and the variables
    /// allocated for the binders enclosing the goal, outermost first.
    Suspend(State, Vec<u64>, Goal),
    /// Two streams merged by fair interleaving.
    MPlus(Box<Stream>, Box<Stream>),
    /// A stream whose every answer is fed to a further goal.
    Bind(Box<Stream>, Vec<u64>, Goal),
}

/// The mathematical shape of a `Stream`.
pub enum SpecStream {
    Empty,
    Suspend(SpecState, Seq<u64>, SpecGoal),
    MPlus(Box<SpecStream>, Box<SpecStream>),
    Bind(Box<SpecStream>, Seq<u64>, SpecGoal),
}

/// The mathematical value of a stream.
pub open spec fn stream_view(s: Stream) -> SpecStream
    decreases s,
{
    match s {
        Stream::Empty => SpecStream::Empty,
        Stream::Suspend(st, env, g) => SpecStream::Suspend(st@, env@, goal_view(g)),
        Stream::MPlus(s1, s2) => SpecStream::MPlus(
            Box::new(stream_view(*s1)),
            Box::new(stream_view(*s2)),
        ),
        Stream::Bind(s1, env, g) => SpecStream::Bind(
            Box::new(stream_view(*s1)),
            env@,
            goal_view(g),
        ),
    }
}

impl View for Stream {
    type V = SpecStream;

    open spec fn view(&self) -> SpecStream {
        stream_view(*self)
    }
}

/// Every state carried by the stream has a well-formed binding list.
pub open spec fn stream_wf(s: SpecStream) -> bool
    decreases s,
{
    match s {
        SpecStream::Empty => true,
        SpecStream::Suspend(st, _env, _g) => wf_bindings(st.bindings),
        SpecStream::MPlus(s1, s2) => stream_wf(*s1) && stream_wf(*s2),
        SpecStream::Bind(s1, _env, _g) => stream_wf(*s1),
    }
}

/// What one step of the search yields.
pub enum StepResult {
    /// The stream is exhausted.
    Done,
    /// One succeeding state, and the stream of the remaining answers.
    Out(State, Stream),
    /// Progress without an answer yet.
    More(Stream),
}

/// The mathematical shape of a `StepResult`.
pub enum SpecStep {
    Done,
    Out(SpecState, SpecStream),
    More(SpecStream),
}

impl View for StepResult {
    type V = SpecStep;

    open spec fn view(&self) -> SpecStep {
        match self {
            StepResult::Done => SpecStep::Done,
            StepResult::Out(st, rest) => SpecStep::Out(st@, rest@),
            StepResult::More(s) => SpecStep::More(s@),
        }
    }
}

/// One step of the search.
///
/// A suspended `Unify` runs the unification engine, yielding one state or
/// none.  A suspended `Fresh` allocates a variable and suspends its body;
/// when the variable counter is exhausted the stream ends without answers.
/// A suspended `Disj` becomes a fair merge of its two branches run in the
/// same state; a suspended `Conj` feeds the answers of its left goal to
/// its right goal.  Stepping a merge advances its first branch and swaps
/// the branches, so the two take turns.
pub open spec fn spec_step(s: SpecStream, fuel: nat) -> SpecStep
    decreases s,
{
    match s {
        SpecStream::Empty => SpecStep::Done,
        SpecStream::Suspend(st, env, g) => match g {
            SpecGoal::Unify(a, b) => {
                let ra = spec_resolve(a, env);
                let rb = spec_resolve(b, env);
                match spec_unify(st.bindings, ra, rb, fuel) {
                    SpecUnify::Done(b2) => SpecStep::Out(
                        SpecState { bindings: b2, count: st.count },
                        SpecStream::Empty,
                    ),
                    SpecUnify::Fail => SpecStep::Done,
                    SpecUnify::Stuck => SpecStep::Done,
                }
            },
            SpecGoal::Fresh(body) => if st.count == u64::MAX {
                SpecStep::Done
            } else {
                SpecStep::More(
                    SpecStream::Suspend(
                        SpecState { bindings: st.bindings, count: (st.count + 1) as u64 },
                        env.push(st.count),
                        *body,
                    ),
                )
            },
            SpecGoal::Disj(g1, g2) => SpecStep::More(
                SpecStream::MPlus(
                    Box::new(SpecStream::Suspend(st, env, *g1)),
                    Box::new(SpecStream::Suspend(st, env, *g2)),
                ),
            ),
            SpecGoal::Conj(g1, g2) => SpecStep::More(
                SpecStream::Bind(Box::new(SpecStream::Suspend(st, env, *g1)), env, *g2),
            ),
        },
        SpecStream::MPlus(s1, s2) => match spec_step(*s1, fuel) {
            SpecStep::Done => SpecStep::More(*s2),
            SpecStep::Out(st, rest) => SpecStep::Out(
                st,
                SpecStream::MPlus(s2, Box::new(rest)),
            ),
            SpecStep::More(s1p) => SpecStep::More(SpecStream::MPlus(s2, Box::new(s1p))),
        },
        SpecStream::Bind(s1, env, g) => match spec_step(*s1, fuel) {
            SpecStep::Done => SpecStep::Done,
            SpecStep::Out(st, rest) => SpecStep::More(
                SpecStream::MPlus(
                    Box::new(SpecStream::Suspend(st, env, g)),
                    Box::new(SpecStream::Bind(Box::new(rest), env, g)),
                ),
            ),
            SpecStep::More(s1p) => SpecStep::More(SpecStream::Bind(Box::new(s1p), env, g)),
        },
    }
}

impl Stream {
    /// The stream of a goal applied to a state, with no enclosing binders.
    pub fn of_goal(g: Goal, st: State) -> (r: Stream)
        ensures
            r@ == SpecStream::Suspend(st@, Seq::<u64>::empty(), g@),
            st.wf() ==> stream_wf(r@),
    {
        let env: Vec<u64> = Vec::new();
        proof {
            assert(env@ =~= Seq::<u64>::empty());
        }
        Stream::Suspend(st, env, g)
    }

    /// One cooperative step of the search, mirrored exactly by `spec_step`.
    pub fn step(self, fuel: u64) -> (r: StepResult)
        requires
            stream_wf(self@),
        ensures
            r@ == spec_step(self@, fuel as nat),
            r matches StepResult::Out(st, rest) ==> st.wf() && stream_wf(rest@),
            r matches StepResult::More(s) ==> stream_wf(s@),
        decreases self,
    {
        let ghost sv = self@;
        match self {
            Stream::Empty => StepResult::Done,
            Stream::Suspend(st, env, g) => match g {
                Goal::Unify(a, b) => {
                    let ra = resolve_term(&a, &env);
                    let rb = resolve_term(&b, &env);
                    match st.unify(&ra, &rb, fuel) {
                        Some(s2) => StepResult::Out(s2, Stream::Empty),
                        None => StepResult::Done,
                    }
                },
                Goal::Fresh(body) => {
                    if st.count == u64::MAX {
                        StepResult::Done
                    } else {
                        let mut st2 = st;
                        let v = st2.fresh_variable();
                        let mut env2 = env;
                        env2.push(v);
                        let inner = Stream::Suspend(st2, env2, *body);
                        proof {
                            assert(stream_wf(inner@));
                            assert(spec_step(sv, fuel as nat) == SpecStep::More(inner@));
                        }
                        StepResult::More(inner)
                    }
                },
                Goal::Disj(g1, g2) => {
                    let st2 = st.dup();
                    let env2 = dup_env(&env);
                    let left = Stream::Suspend(st, env, *g1);
                    let right = Stream::Suspend(st2, env2, *g2);
                    let ghost lv = left@;
                    let ghost rv = right@;
                    let merged = Stream::MPlus(Box::new(left), Box::new(right));
                    proof {
                        assert(merged@ == SpecStream::MPlus(Box::new(lv), Box::new(rv)));
                        assert(stream_wf(lv) && stream_wf(rv));
                        assert(stream_wf(merged@));
                        assert(spec_step(sv, fuel as nat) == SpecStep::More(merged@));
                    }
                    StepResult::More(merged)
                },
                Goal::Conj(g1, g2) => {
                    let env2 = dup_env(&env);
                    let left = Stream::Suspend(st, env2, *g1);
                    let ghost lv = left@;
                    let bound = Stream::Bind(Box::new(left), env, *g2);
                    proof {
                        assert(bound@ matches SpecStream::Bind(b1, e, gg) && *b1 == lv);
                        assert(stream_wf(lv));
                        assert(stream_wf(bound@));
                        assert(spec_step(sv, fuel as nat) == SpecStep::More(bound@));
                    }
                    StepResult::More(bound)
                },
            },
            Stream::MPlus(s1, s2) => match (*s1).step(fuel) {
                StepResult::Done => StepResult::More(*s2),
                StepResult::Out(st, rest) => {
                    let ghost restv = rest@;
                    let merged = Stream::MPlus(s2, Box::new(rest));
                    proof {
                        assert(stream_wf(restv) && stream_wf((*s2)@));
                        assert(stream_wf(merged@));
                        assert(spec_step(sv, fuel as nat) == SpecStep::Out(st@, merged@));
                    }
                    StepResult::Out(st, merged)
                },
                StepResult::More(s1p) => {
                    let ghost pv = s1p@;
                    let merged = Stream::MPlus(s2, Box::new(s1p));
                    proof {
                        assert(stream_wf(pv) && stream_wf((*s2)@));
                        assert(stream_wf(merged@));
                        assert(spec_step(sv, fuel as nat) == SpecStep::More(merged@));
                    }
                    StepResult::More(merged)
                },
            },
            Stream::Bind(s1, env, g) => match (*s1).step(fuel) {
                StepResult::Done => StepResult::Done,
                StepResult::Out(st, rest) => {
                    let env2 = dup_env(&env);
                    let g2 = g.dup();
                    let first = Stream::Suspend(st, env2, g2);
                    let ghost fv = first@;
                    let ghost restv = rest@;
                    let second = Stream::Bind(Box::new(rest), env, g);
                    let ghost sv2 = second@;
                    let merged = Stream::MPlus(Box::new(first), Box::new(second));
                    proof {
                        assert(merged@ == SpecStream::MPlus(Box::new(fv), Box::new(sv2)));
                        assert(stream_wf(fv) && stream_wf(sv2));
                        assert(stream_wf(merged@));
                        assert(spec_step(sv, fuel as nat) == SpecStep::More(merged@));
                    }
                    StepResult::More(merged)
                },
                StepResult::More(s1p) => {
                    let ghost pv = s1p@;
                    let bound = Stream::Bind(Box::new(s1p), env, g);
                    proof {
                        assert(stream_wf(pv));
                        assert(stream_wf(bound@));
                        assert(spec_step(sv, fuel as nat) == SpecStep::More(bound@));
                    }
                    StepResult::More(bound)
                },
            },
        }
    }
}

/// The mathematical values of a vector of states, element by element.
pub open spec fn states_view(s: Seq<State>) -> Seq<SpecState> {
    Seq::new(s.len(), |i: int| s[i]@)
}

/// The solutions the bounded driver reaches: at most `want` answers pulled
/// within `steps` search steps, every unification run under the depth
/// budget `fuel`.
pub open spec fn spec_solve(ss: SpecStream, want: nat, steps: nat, fuel: nat) -> Seq<SpecState>
    decreases steps,
{
    if want == 0 || steps == 0 {
        Seq::empty()
    } else {
        match spec_step(ss, fuel) {
            SpecStep::Done => Seq::empty(),
            SpecStep::Out(st, rest) => seq![st] + spec_solve(
                rest,
                (want - 1) as nat,
                (steps - 1) as nat,
                fuel,
            ),
            SpecStep::More(s2) => spec_solve(s2, want, (steps - 1) as nat, fuel),
        }
    }
}

/// Runs a goal against a state: pulls at most `max_solutions` succeeding
/// states from its stream, giving up once `max_steps` search steps have
/// been spent; each unification along the way runs under the depth budget
/// `fuel`, both limits the caller's choice.  Each returned state is one
/// way the goal can succeed.
#[verifier::loop_isolation(false)]
pub fn solve(g: Goal, st: State, max_solutions: usize, max_steps: u64, fuel: u64) -> (r: Vec<
    State,
>)
    requires
        st.wf(),
    ensures
        states_view(r@) == spec_solve(
            SpecStream::Suspend(st@, Seq::<u64>::empty(), g@),
            max_solutions as nat,
            max_steps as nat,
            fuel as nat,
        ),
        forall|i: int| 0 <= i < r@.len() ==> (#[trigger] r@[i]).wf(),
{
    let mut cur: Stream = Stream::of_goal(g, st);
    let ghost init = cur@;
    let mut acc: Vec<State> = Vec::new();
    let mut steps_left: u64 = max_steps;
    let mut done: bool = false;
    while !done && steps_left > 0 && acc.len() < max_solutions
        invariant
            acc@.len() <= max_solutions,
            steps_left <= max_steps,
            forall|i: int| 0 <= i < acc@.len() ==> (#[trigger] acc@[i]).wf(),
            !done ==> stream_wf(cur@),
            spec_solve(init, max_solutions as nat, max_steps as nat, fuel as nat)
                == states_view(acc@)
                + (if done {
                Seq::<SpecState>::empty()
            } else {
                spec_solve(
                    cur@,
                    (max_solutions - acc@.len()) as nat,
                    steps_left as nat,
                    fuel as nat,
                )
            }),
        decreases steps_left,
    {
        let stepped = cur.step(fuel);
        cur = Stream::Empty;
        steps_left = steps_left - 1;
        match stepped {
            StepResult::Done => {
                done = true;
            },
            StepResult::Out(sol, rest) => {
                acc.push(sol);
                cur = rest;
            },
            StepResult::More(s2) => {
                cur = s2;
            },
        }
    }
    proof {
        assert(states_view(acc@) + Seq::<SpecState>::empty() =~= states_view(acc@));
    }
    acc
}

} // verus!
