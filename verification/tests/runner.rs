use hurl_lsp::runner::{outcome_for, run_task_id, RunEvent, RunOutcome};

#[test]
fn events_decide_outcomes() {
    assert_eq!(outcome_for(RunEvent::Exited), (RunOutcome::Completed, false));
    assert_eq!(outcome_for(RunEvent::CancelSignal { requested: true }), (RunOutcome::Cancelled, true));
    assert_eq!(outcome_for(RunEvent::CancelSignal { requested: false }), (RunOutcome::Completed, false));
    assert_eq!(outcome_for(RunEvent::TimeLimit), (RunOutcome::TimedOut, true));
}

#[test]
fn task_ids_carry_time_and_sequence() {
    assert_eq!(run_task_id(1700000000123, 7), "run-1700000000123-7");
    assert_eq!(run_task_id(0, 0), "run-0-0");
}
