//! The decisions of a run of `hurl`: how a wait ends, and how a task is named.
use vstd::prelude::*;
use crate::text::{decimal, push_decimal, push_str, string_of};

verus! {

/// How a run ended.
#[derive(Clone, Copy, Debug, PartialEq, Eq, Structural)]
pub enum RunOutcome {
    Completed,
    Cancelled,
    TimedOut,
}

/// What ended the wait for a run's process.
#[derive(Clone, Copy, Debug, PartialEq, Eq, Structural)]
pub enum RunEvent {
    /// The process exited.
    Exited,
    /// The cancellation signal changed; `requested` when its channel is open and it now
    /// asks for cancellation.
    CancelSignal { requested: bool },
    /// The time limit passed.
    TimeLimit,
}

/// The outcome of a run after an event, and whether its process is killed before it is
/// waited for: a cancellation that is asked for, or a time limit, kills it.
pub open spec fn spec_outcome(event: RunEvent) -> (RunOutcome, bool) {
    match event {
        RunEvent::Exited => (RunOutcome::Completed, false),
        RunEvent::CancelSignal { requested } => if requested {
            (RunOutcome::Cancelled, true)
        } else {
            (RunOutcome::Completed, false)
        },
        RunEvent::TimeLimit => (RunOutcome::TimedOut, true),
    }
}

/// The outcome of a run after an event, and whether to kill its process first.
pub fn outcome_for(event: RunEvent) -> (r: (RunOutcome, bool))
    ensures
        r == spec_outcome(event),
{
    match event {
        RunEvent::Exited => (RunOutcome::Completed, false),
        RunEvent::CancelSignal { requested } => if requested {
            (RunOutcome::Cancelled, true)
        } else {
            (RunOutcome::Completed, false)
        },
        RunEvent::TimeLimit => (RunOutcome::TimedOut, true),
    }
}

pub open spec fn spec_task_id(millis: u64, sequence: u64) -> Seq<char> {
    "run-"@ + decimal(millis as nat) + "-"@ + decimal(sequence as nat)
}

/// The id of a run task: `run-`, the time in milliseconds, `-`, and a sequence number.
pub fn run_task_id(millis: u64, sequence: u64) -> (r: String)
    ensures
        r@ == spec_task_id(millis, sequence),
{
    let mut v: Vec<char> = Vec::new();
    push_str(&mut v, "run-");
    push_decimal(&mut v, millis);
    push_str(&mut v, "-");
    push_decimal(&mut v, sequence);
    assert(v@ =~= spec_task_id(millis, sequence));
    string_of(v.as_slice())
}

} // verus!
