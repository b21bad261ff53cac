//! Cooperatively cancellable service loops.
//!
//! A loop body implements [`Cancellable`] by providing one unit of repeatable
//! work, [`Cancellable::for_each`]. The library drives such a body to
//! completion, either on the calling thread ([`run`]) or under the control of
//! a shared cancellation flag ([`run_until_cancelled`]), stopping at the next
//! iteration boundary once any [`Canceller`] for that flag has fired.

use vstd::prelude::*;

verus! {

use core::sync::atomic::AtomicBool;
use core::sync::atomic::Ordering;
use std::sync::Arc;

/// Tells if the service loop should continue or not.
pub enum LoopState {
    /// Accept more work: the driver will issue another step.
    Continue,
    /// Stop: the driver exits the loop and reports success.
    Break,
}

/// A unit of repeatable work that the drivers of this crate can run.
///
/// Each call of `for_each` performs one step and signals whether the loop
/// should go on, stop, or fail with a value of the implementor's error type.
pub trait Cancellable: Sized {
    /// Error type for the value returned by the inner loop.
    type Error;

    /// The relation every step obeys: how one call of `for_each` may change
    /// the body, for each outcome it may report. An implementor whose steps
    /// are not otherwise predictable may define this as `true`; a scripted
    /// body can pin each step down exactly, and the drivers' contracts then
    /// determine the run from the script.
    spec fn step_post(pre: Self, post: Self, r: Result<LoopState, Self::Error>) -> bool;

    /// An upper bound on how many more steps may report `Continue`. The
    /// drivers' loops terminate because every `Continue` step lowers it.
    spec fn remaining(&self) -> nat;

    /// Perform one unit of work.
    fn for_each(&mut self) -> (r: Result<LoopState, Self::Error>)
        ensures
            Self::step_post(*old(self), *final(self), r),
            r matches Ok(LoopState::Continue) ==> final(self).remaining() < old(self).remaining(),
    ;
}

/// Holds: `trace` is a run of `for_each` steps that all reported `Continue`,
/// each step relating one state of the body to the next.
pub open spec fn continue_chain<C: Cancellable>(trace: Seq<C>) -> bool {
    forall|i: int|
        0 <= i < trace.len() - 1 ==> #[trigger] C::step_post(
            trace[i],
            trace[i + 1],
            Ok(LoopState::Continue),
        )
}

/// Holds: starting from the body state `pre`, the states of `trace` were
/// reached in order by steps that all reported `Continue`.
pub open spec fn continue_run<C: Cancellable>(pre: C, trace: Seq<C>) -> bool {
    &&& trace.len() >= 1
    &&& trace[0] == pre
    &&& continue_chain(trace)
}

/// Holds: from `pre`, some steps all reporting `Continue` led to a state from
/// which one more step reported `Break` and left the body in state `post`.
pub open spec fn run_breaks<C: Cancellable>(pre: C, post: C) -> bool {
    exists|trace: Seq<C>|
        #[trigger] continue_run(pre, trace) && C::step_post(
            trace.last(),
            post,
            Ok(LoopState::Break),
        )
}

/// Holds: from `pre`, some steps all reporting `Continue` led to a state from
/// which one more step failed with `e` and left the body in state `post`.
pub open spec fn run_fails<C: Cancellable>(pre: C, post: C, e: C::Error) -> bool {
    exists|trace: Seq<C>|
        #[trigger] continue_run(pre, trace) && C::step_post(trace.last(), post, Err(e))
}

/// Holds: from `pre`, some steps all reporting `Continue` led exactly to
/// `post`, and no further step was taken.
pub open spec fn run_stops<C: Cancellable>(pre: C, post: C) -> bool {
    exists|trace: Seq<C>| #[trigger] continue_run(pre, trace) && trace.last() == post
}

/// Drive the loop body on the calling thread until it signals `Break` or
/// fails; there is no way to cancel it. Success is reported only when a step
/// reported `Break`, after steps that all reported `Continue`; the first
/// failure is returned as is, and no step runs after it.
#[verifier::loop_isolation(false)]
pub fn run<C: Cancellable>(body: &mut C) -> (r: Result<(), C::Error>)
    ensures
        r matches Ok(_) ==> run_breaks(*old(body), *final(body)),
        r matches Err(e) ==> run_fails(*old(body), *final(body), e),
{
    let ghost mut trace: Seq<C> = seq![*body];
    loop
        invariant
            continue_run(*old(body), trace),
            trace.last() == *body,
        decreases body.remaining(),
    {
        match body.for_each() {
            Ok(LoopState::Continue) => {
                proof {
                    let grown = trace.push(*body);
                    assert forall|i: int| 0 <= i < grown.len() - 1 implies #[trigger] C::step_post(
                        grown[i],
                        grown[i + 1],
                        Ok(LoopState::Continue),
                    ) by {
                        if i < trace.len() - 1 {
                            assert(C::step_post(trace[i], trace[i + 1], Ok(LoopState::Continue)));
                        }
                    }
                    trace = grown;
                }
            },
            Ok(LoopState::Break) => {
                return Ok(());
            },
            Err(e) => {
                return Err(e);
            },
        }
    }
}

/// Get a thread safe way to ask a running service loop to stop.
///
/// Every clone shares the same underlying run flag, so cancelling through any
/// clone has the same effect as cancelling through the original. The flag
/// starts true ("keep running") and only ever moves to false.
#[derive(Clone)]
pub struct Canceller {
    keep_running: Arc<AtomicBool>,
}

impl Canceller {
    /// Create a fresh run flag, initially set ("keep running").
    pub fn new() -> Canceller {
        Canceller { keep_running: Arc::new(AtomicBool::new(true)) }
    }

    /// Tells the service to stop as soon as possible.
    ///
    /// This will *not* interrupt a step that is currently executing: the
    /// driver consults the shared flag only between steps. The store is
    /// atomic and sequentially consistent, may be called from any thread any
    /// number of times, and is idempotent; the flag never returns to true.
    /// The flag is shared between threads, so nothing about its value can be
    /// promised to sequential callers here.
    pub fn cancel(&self) {
        self.keep_running.store(false, Ordering::SeqCst);
    }

    /// Read the shared flag: true while the loop should keep running. The
    /// value may be flipped by another thread at any moment, so no outcome
    /// can be promised.
    fn should_run(&self) -> bool {
        self.keep_running.load(Ordering::SeqCst)
    }
}

/// Drive the loop body on the calling thread, consulting the canceller's
/// shared flag before every step; this is what a background thread runs for
/// an asynchronously spawned loop. Success is reported either because a step
/// reported `Break`, or because the flag was observed false at an iteration
/// boundary — in that case the body is left exactly as the steps so far (all
/// reporting `Continue`) left it, and no step starts after the observation.
/// The first failure is returned as is, and no step runs after it.
#[verifier::loop_isolation(false)]
pub fn run_until_cancelled<C: Cancellable>(body: &mut C, canceller: &Canceller) -> (r: Result<
    (),
    C::Error,
>)
    ensures
        r matches Ok(_) ==> run_breaks(*old(body), *final(body)) || run_stops(
            *old(body),
            *final(body),
        ),
        r matches Err(e) ==> run_fails(*old(body), *final(body), e),
{
    let ghost mut trace: Seq<C> = seq![*body];
    loop
        invariant
            continue_run(*old(body), trace),
            trace.last() == *body,
        decreases body.remaining(),
    {
        if !canceller.should_run() {
            return Ok(());
        }
        match body.for_each() {
            Ok(LoopState::Continue) => {
                proof {
                    let grown = trace.push(*body);
                    assert forall|i: int| 0 <= i < grown.len() - 1 implies #[trigger] C::step_post(
                        grown[i],
                        grown[i + 1],
                        Ok(LoopState::Continue),
                    ) by {
                        if i < trace.len() - 1 {
                            assert(C::step_post(trace[i], trace[i + 1], Ok(LoopState::Continue)));
                        }
                    }
                    trace = grown;
                }
            },
            Ok(LoopState::Break) => {
                return Ok(());
            },
            Err(e) => {
                return Err(e);
            },
        }
    }
}

/// One scripted outcome for a step of a [`Script`] body.
#[derive(Clone, Copy)]
pub enum ScriptStep {
    /// The step reports `Continue`.
    Continue,
    /// The step reports `Break`.
    Break,
    /// The step fails with this value.
    Fail(u64),
}

/// The outcome a [`Script`] body reports for one scripted entry.
pub open spec fn step_outcome(s: ScriptStep) -> Result<LoopState, u64> {
    match s {
        ScriptStep::Continue => Ok(LoopState::Continue),
        ScriptStep::Break => Ok(LoopState::Break),
        ScriptStep::Fail(e) => Err(e),
    }
}

/// A loop body that follows a fixed script: each step reports the next entry
/// of the script, and counts how many entries it has consumed. Once the
/// script is exhausted it reports `Break` without consuming anything. Being
/// fully predictable, it pins the drivers' contracts down to exact runs.
pub struct Script {
    steps: Vec<ScriptStep>,
    pos: usize,
}

impl Script {
    /// The fixed script this body follows.
    pub closed spec fn script(&self) -> Seq<ScriptStep> {
        self.steps@
    }

    /// How many script entries have been consumed, one per step taken.
    pub closed spec fn taken(&self) -> int {
        self.pos as int
    }

    /// A body that will follow `steps` from the beginning.
    pub fn new(steps: Vec<ScriptStep>) -> (s: Script)
        ensures
            s.script() == steps@,
            s.taken() == 0,
    {
        Script { steps, pos: 0 }
    }

    /// How many steps this body has taken so far.
    pub fn steps_taken(&self) -> (n: usize)
        ensures
            n == self.taken(),
    {
        self.pos
    }
}

impl Cancellable for Script {
    type Error = u64;

    open spec fn step_post(pre: Script, post: Script, r: Result<LoopState, u64>) -> bool {
        &&& post.script() == pre.script()
        &&& if pre.taken() < pre.script().len() {
            &&& post.taken() == pre.taken() + 1
            &&& r == step_outcome(pre.script()[pre.taken()])
        } else {
            &&& post.taken() == pre.taken()
            &&& r == Ok::<LoopState, u64>(LoopState::Break)
        }
    }

    open spec fn remaining(&self) -> nat {
        if self.taken() <= self.script().len() {
            (self.script().len() - self.taken()) as nat
        } else {
            0
        }
    }

    fn for_each(&mut self) -> (r: Result<LoopState, u64>) {
        if self.pos < self.steps.len() {
            let s = self.steps[self.pos];
            self.pos = self.pos + 1;
            match s {
                ScriptStep::Continue => Ok(LoopState::Continue),
                ScriptStep::Break => Ok(LoopState::Break),
                ScriptStep::Fail(e) => Err(e),
            }
        } else {
            Ok(LoopState::Break)
        }
    }
}

/// Law: steps of a script that all reported `Continue` leave the script
/// itself unchanged, consume one entry per step, never run past the script,
/// and every entry they consumed is a `Continue` entry — the driver takes no
/// early exit and no extra step.
pub proof fn lemma_script_continue_run(pre: Script, trace: Seq<Script>)
    requires
        continue_run(pre, trace),
    ensures
        trace.last().script() == pre.script(),
        trace.last().taken() == pre.taken() + trace.len() - 1,
        forall|i: int|
            pre.taken() <= i < trace.last().taken() ==> i < pre.script().len()
                && pre.script()[i] == ScriptStep::Continue,
    decreases trace.len(),
{
    if trace.len() > 1 {
        let prefix = trace.drop_last();
        assert(Script::step_post(
            trace[trace.len() - 2],
            trace[trace.len() - 2 + 1],
            Ok(LoopState::Continue),
        ));
        assert forall|i: int| 0 <= i < prefix.len() - 1 implies #[trigger] Script::step_post(
            prefix[i],
            prefix[i + 1],
            Ok(LoopState::Continue),
        ) by {
            assert(Script::step_post(trace[i], trace[i + 1], Ok(LoopState::Continue)));
        }
        lemma_script_continue_run(pre, prefix);
        let mid = prefix.last();
        assert(mid == trace[trace.len() - 2]);
        assert(step_outcome(pre.script()[mid.taken()]) == Ok::<LoopState, u64>(
            LoopState::Continue,
        ));
        assert(pre.script()[mid.taken()] == ScriptStep::Continue);
    }
}

/// Law: a run of a script that ended because a step reported `Break` consumed
/// only `Continue` entries and then either one `Break` entry or, the script
/// being exhausted, nothing more; the script itself is unchanged.
pub proof fn lemma_script_run_breaks(pre: Script, post: Script)
    requires
        run_breaks(pre, post),
    ensures
        post.script() == pre.script(),
        post.taken() >= pre.taken(),
        (post.taken() - 1 >= pre.taken() && post.taken() - 1 < pre.script().len()
            && pre.script()[post.taken() - 1] == ScriptStep::Break && forall|i: int|
            pre.taken() <= i < post.taken() - 1 ==> pre.script()[i] == ScriptStep::Continue) || (
        post.taken() >= pre.script().len() && forall|i: int|
            pre.taken() <= i < post.taken() ==> i < pre.script().len() && pre.script()[i]
                == ScriptStep::Continue),
{
    let trace = choose|trace: Seq<Script>|
        #[trigger] continue_run(pre, trace) && Script::step_post(
            trace.last(),
            post,
            Ok(LoopState::Break),
        );
    lemma_script_continue_run(pre, trace);
    if trace.last().taken() < pre.script().len() {
        assert(pre.script()[trace.last().taken()] == ScriptStep::Break);
    }
}

/// Law: a run of a script that ended in the failure `e` consumed only
/// `Continue` entries, then exactly one `Fail(e)` entry — the failure is
/// returned as is and no step runs after it; the script itself is unchanged.
pub proof fn lemma_script_run_fails(pre: Script, post: Script, e: u64)
    requires
        run_fails(pre, post, e),
    ensures
        post.script() == pre.script(),
        pre.taken() <= post.taken() - 1 < pre.script().len(),
        pre.script()[post.taken() - 1] == ScriptStep::Fail(e),
        forall|i: int|
            pre.taken() <= i < post.taken() - 1 ==> pre.script()[i] == ScriptStep::Continue,
{
    let trace = choose|trace: Seq<Script>|
        #[trigger] continue_run(pre, trace) && Script::step_post(trace.last(), post, Err(e));
    lemma_script_continue_run(pre, trace);
    assert(trace.last().taken() < pre.script().len());
    assert(pre.script()[trace.last().taken()] == ScriptStep::Fail(e));
}

/// The outcome a full, uncancelled run of a script is bound to report, when
/// started with `from` entries already consumed: the first entry at or after
/// `from` that is not a `Continue` decides it — success for a `Break` entry or
/// an exhausted script, the failure value for a `Fail` entry.
pub open spec fn script_outcome(plan: Seq<ScriptStep>, from: int) -> Result<(), u64>
    decreases plan.len() - from,
{
    if from < 0 || from >= plan.len() {
        Ok(())
    } else {
        match plan[from] {
            ScriptStep::Continue => script_outcome(plan, from + 1),
            ScriptStep::Break => Ok(()),
            ScriptStep::Fail(e) => Err(e),
        }
    }
}

proof fn lemma_script_outcome_skips_continues(plan: Seq<ScriptStep>, from: int, to: int)
    requires
        0 <= from <= to <= plan.len(),
        forall|i: int| from <= i < to ==> plan[i] == ScriptStep::Continue,
    ensures
        script_outcome(plan, from) == script_outcome(plan, to),
    decreases to - from,
{
    if from < to {
        lemma_script_outcome_skips_continues(plan, from + 1, to);
    }
}

/// Law: the result of driving a script to completion is a function of the
/// script alone — success exactly when the first entry still to come that is
/// not a `Continue` is a `Break` entry or the script's end, and the failure
/// value of that entry otherwise. The two premises are what [`run`] (and, for
/// a failure, [`run_until_cancelled`]) ensure of their result.
pub proof fn lemma_script_run_outcome(pre: Script, post: Script, r: Result<(), u64>)
    requires
        r matches Ok(_) ==> run_breaks(pre, post),
        r matches Err(e) ==> run_fails(pre, post, e),
    ensures
        r == script_outcome(pre.script(), pre.taken()),
{
    let plan = pre.script();
    if r is Ok {
        lemma_script_run_breaks(pre, post);
        if post.taken() - 1 >= pre.taken() && post.taken() - 1 < plan.len() && plan[post.taken()
            - 1] == ScriptStep::Break {
            lemma_script_outcome_skips_continues(plan, pre.taken(), post.taken() - 1);
        } else {
            if pre.taken() <= plan.len() {
                lemma_script_outcome_skips_continues(plan, pre.taken(), plan.len() as int);
            }
        }
        assert(r->Ok_0 == ());
        assert(r == Ok::<(), u64>(()));
        assert(script_outcome(plan, pre.taken()) == Ok::<(), u64>(()));
    } else {
        let e = r->Err_0;
        lemma_script_run_fails(pre, post, e);
        lemma_script_outcome_skips_continues(plan, pre.taken(), post.taken() - 1);
        assert(r == Err::<(), u64>(e));
        assert(script_outcome(plan, pre.taken()) == Err::<(), u64>(e));
    }
}

/// Law: a run of a script that was stopped by the cancellation flag consumed
/// only `Continue` entries — once the flag is observed false, no further step
/// starts, so nothing beyond that chain was consumed; the script itself is
/// unchanged.
pub proof fn lemma_script_run_stops(pre: Script, post: Script)
    requires
        run_stops(pre, post),
    ensures
        post.script() == pre.script(),
        post.taken() >= pre.taken(),
        forall|i: int|
            pre.taken() <= i < post.taken() ==> i < pre.script().len() && pre.script()[i]
                == ScriptStep::Continue,
{
    let trace = choose|trace: Seq<Script>| #[trigger] continue_run(pre, trace) && trace.last()
        == post;
    lemma_script_continue_run(pre, trace);
}

} // verus!
