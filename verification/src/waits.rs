//! How long a trial waits for something to come about.
use crate::migration::MigrationPhase;
use crate::status::{RangeReplicaStatus, RangeStatusView};
use crate::text::{joined, owned};
use crate::trial::{all_copied, has_full_rf};
use crate::views::views;
use vstd::prelude::*;

verus! {

/// What to do after one more look.
#[derive(Debug, Eq, PartialEq)]
pub enum WaitStep {
    /// It has come about.
    Done,
    /// Look again later.
    Wait,
    /// It takes too long; what is said.
    GiveUp(String),
}

pub enum WaitView {
    Done,
    Wait,
    GiveUp(Seq<char>),
}

impl View for WaitStep {
    type V = WaitView;

    open spec fn view(&self) -> WaitView {
        match self {
            WaitStep::Done => WaitView::Done,
            WaitStep::Wait => WaitView::Wait,
            WaitStep::GiveUp(message) => WaitView::GiveUp(message@),
        }
    }
}

/// What to do after a look: what has come about counts even after the deadline.
pub open spec fn after_look(done: bool, now: u64, deadline: u64, late: Seq<char>) -> WaitView {
    if done {
        WaitView::Done
    } else if now < deadline {
        WaitView::Wait
    } else {
        WaitView::GiveUp(late)
    }
}

/// Decides what to do after a look.
pub fn next_wait(done: bool, now: u64, deadline: u64, late: &str) -> (r: WaitStep)
    ensures
        r@ == after_look(done, now, deadline, late@),
{
    if done {
        WaitStep::Done
    } else if now < deadline {
        WaitStep::Wait
    } else {
        WaitStep::GiveUp(owned(late))
    }
}

/// Every range was seen to have all its copies.
pub open spec fn seen_full(ranges: Option<Seq<RangeStatusView>>, desired_rf: u32) -> bool {
    ranges is Some && all_copied(ranges->0, desired_rf)
}

/// Decides whether to wait on until every range has all its copies. A look that failed shows
/// nothing. `timeout` is how long was to be waited at most, as it is told.
pub fn wait_for_full_rf(
    ranges: Option<&Vec<RangeReplicaStatus>>,
    desired_rf: u32,
    now: u64,
    deadline: u64,
    timeout: &str,
) -> (r: WaitStep)
    ensures
        r@ == after_look(
            seen_full(
                match ranges {
                    Some(ranges) => Some(views(ranges@)),
                    None => None,
                },
                desired_rf,
            ),
            now,
            deadline,
            "full RF did not converge within "@ + timeout@,
        ),
{
    let done = match ranges {
        Some(ranges) => has_full_rf(ranges, desired_rf),
        None => false,
    };
    let late = joined("full RF did not converge within ", timeout);
    next_wait(done, now, deadline, late.as_str())
}

/// Decides whether to wait on until the change that a failure brought about is over. `phase`
/// is that of the change, where there is one.
pub fn wait_for_change(phase: Option<MigrationPhase>, now: u64, deadline: u64) -> (r: WaitStep)
    ensures
        r@ == after_look(
            phase is None || phase->0.terminal(),
            now,
            deadline,
            "failover change did not complete"@,
        ),
{
    let done = match phase {
        Some(phase) => phase.is_terminal(),
        None => true,
    };
    next_wait(done, now, deadline, "failover change did not complete")
}

} // verus!
