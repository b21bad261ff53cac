use cancellable::run;
use cancellable::run_until_cancelled;
use cancellable::Cancellable;
use cancellable::Canceller;
use cancellable::LoopState;
use cancellable::Script;
use cancellable::ScriptStep;

#[test]
fn script_runs_all_continues_then_break() {
    // A body that continues exactly 3 times and then stops: the synchronous
    // runner performs exactly 4 step invocations and returns success.
    let mut s = Script::new(vec![
        ScriptStep::Continue,
        ScriptStep::Continue,
        ScriptStep::Continue,
        ScriptStep::Break,
    ]);
    assert_eq!(run(&mut s), Ok(()));
    assert_eq!(s.steps_taken(), 4);
}

#[test]
fn failure_halts_the_loop_at_once() {
    // The first failure is returned as is; the entry after it is never run.
    let mut s = Script::new(vec![
        ScriptStep::Continue,
        ScriptStep::Fail(7),
        ScriptStep::Continue,
    ]);
    assert_eq!(run(&mut s), Err(7));
    assert_eq!(s.steps_taken(), 2);
}

#[test]
fn empty_script_stops_without_consuming() {
    let mut s = Script::new(vec![]);
    assert_eq!(run(&mut s), Ok(()));
    assert_eq!(s.steps_taken(), 0);
}

#[test]
fn first_step_reports_first_entry() {
    let mut s = Script::new(vec![ScriptStep::Break, ScriptStep::Continue]);
    assert!(matches!(s.for_each(), Ok(LoopState::Break)));
    assert_eq!(s.steps_taken(), 1);
}

#[test]
fn exhausted_script_keeps_breaking() {
    let mut s = Script::new(vec![]);
    assert!(matches!(s.for_each(), Ok(LoopState::Break)));
    assert!(matches!(s.for_each(), Ok(LoopState::Break)));
    assert_eq!(s.steps_taken(), 0);
}

#[test]
fn cancel_before_any_step_takes_none() {
    // Cancelling before the loop starts: zero steps are taken and the run
    // reports success.
    let mut s = Script::new(vec![
        ScriptStep::Continue,
        ScriptStep::Continue,
        ScriptStep::Continue,
    ]);
    let c = Canceller::new();
    c.cancel();
    assert_eq!(run_until_cancelled(&mut s, &c), Ok(()));
    assert_eq!(s.steps_taken(), 0);
}

#[test]
fn cancel_any_number_of_times_is_idempotent() {
    let mut s = Script::new(vec![ScriptStep::Continue, ScriptStep::Break]);
    let c = Canceller::new();
    c.cancel();
    c.cancel();
    c.cancel();
    assert_eq!(run_until_cancelled(&mut s, &c), Ok(()));
    assert_eq!(s.steps_taken(), 0);
}

#[test]
fn uncancelled_flag_lets_the_script_finish() {
    let mut s = Script::new(vec![ScriptStep::Continue, ScriptStep::Break]);
    let c = Canceller::new();
    assert_eq!(run_until_cancelled(&mut s, &c), Ok(()));
    assert_eq!(s.steps_taken(), 2);
}

#[test]
fn failure_propagates_under_the_flag() {
    let mut s = Script::new(vec![ScriptStep::Fail(9), ScriptStep::Continue]);
    let c = Canceller::new();
    assert_eq!(run_until_cancelled(&mut s, &c), Err(9));
    assert_eq!(s.steps_taken(), 1);
}

#[test]
fn cancelling_a_clone_cancels_the_original_flag() {
    // The flag is shared, not duplicated: cancelling through a clone has the
    // identical effect as cancelling through the original.
    let mut s = Script::new(vec![ScriptStep::Continue, ScriptStep::Continue]);
    let original = Canceller::new();
    let clone = original.clone();
    clone.cancel();
    assert_eq!(run_until_cancelled(&mut s, &original), Ok(()));
    assert_eq!(s.steps_taken(), 0);
}

#[test]
fn cancelling_the_original_cancels_a_clone_flag() {
    let mut s = Script::new(vec![ScriptStep::Continue, ScriptStep::Continue]);
    let original = Canceller::new();
    let clone = original.clone();
    original.cancel();
    assert_eq!(run_until_cancelled(&mut s, &clone), Ok(()));
    assert_eq!(s.steps_taken(), 0);
}
