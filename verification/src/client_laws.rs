//! What a client does after each try of an operation, whatever the operation is.
use crate::client::{
    base_delay, conflicts, decision, delay_for, may_have_applied, AttemptDecision, AttemptOutcome,
    BackgroundRefresh, ClientError, Refresh, TopologyRefreshError,
};
use crate::errors::{Code, ErrorCode, OperationError, Status};
use crate::node::NodeView;
use crate::node_write::{recall, DecisionView, MutationView};
use crate::records::RecordVersion;
use crate::topology::SnapshotView;
use vstd::prelude::*;

verus! {

/// A refusal that passes with time or with a newer topology.
pub open spec fn passing(code: ErrorCode) -> bool {
    ||| code == ErrorCode::RangeBusy
    ||| code == ErrorCode::ResourceExhausted
    ||| code == ErrorCode::TemporarilyUnavailable
    ||| code == ErrorCode::ReplicaNotReady
    ||| code == ErrorCode::OutcomeUnknown
    ||| code == ErrorCode::Unavailable
    ||| code == ErrorCode::LeaseExpired
}

/// An operation that was refused is tried again exactly where it was sent to the wrong node, or
/// where the refusal passes and says so. It then goes on under the topology that the refusal asks
/// for: a newer one than was used where the key has moved, one that is at least as new as the node
/// knows where that is newer, and else the same one.
pub proof fn law_passing_refusals_are_retried(
    error: OperationError,
    epoch: u64,
    writes: bool,
    versioned: bool,
    unknown: bool,
)
    ensures
        ({
            let d = decision(AttemptOutcome::Refused(error), epoch, writes, versioned, unknown);
            &&& d is Retry <==> error.code == ErrorCode::Moved || (error.retryable && passing(
                error.code,
            ))
            &&& d is Retry || d is Fail
            &&& d matches AttemptDecision::Retry { refresh, said, unknown: next } ==> {
                &&& next == unknown
                &&& said == (writes && (unknown || error.unknown_write_outcome))
                &&& error.code == ErrorCode::Moved ==> (refresh matches Refresh::AtLeast(e)
                    && e >= error.current_epoch && (epoch < u64::MAX ==> e > epoch) && (e
                    == error.current_epoch || e == epoch + 1 || e == epoch))
                &&& error.code == ErrorCode::Unavailable ==> refresh == Refresh::AfterUnavailable
                &&& error.code == ErrorCode::LeaseExpired ==> refresh == Refresh::Once
                &&& error.code != ErrorCode::Moved && error.code != ErrorCode::Unavailable
                    && error.code != ErrorCode::LeaseExpired ==> refresh == if error.current_epoch
                    > epoch {
                    Refresh::AtLeast(error.current_epoch)
                } else {
                    Refresh::Keep
                }
            }
            &&& d matches AttemptDecision::Fail(e) ==> (e matches ClientError::Operation(f)
                && f.code == error.code && f.message == error.message && f.retryable
                == error.retryable && f.unknown_write_outcome == (error.unknown_write_outcome || (
            writes && unknown)))
        }),
{
}

/// A call that was answered hands its answer out as it came, with the warning that the topology is
/// behind exactly where the node knows a newer one. Only an answer without the version that the
/// operation must have is refused.
pub proof fn law_answers_are_handed_out(
    value: Vec<u8>,
    version: Option<RecordVersion>,
    current_epoch: u64,
    epoch: u64,
    writes: bool,
    versioned: bool,
    unknown: bool,
)
    ensures
        ({
            let d = decision(
                AttemptOutcome::Answered { value, version, current_epoch },
                epoch,
                writes,
                versioned,
                unknown,
            );
            if versioned && version is None {
                d == AttemptDecision::Fail(ClientError::MissingVersion)
            } else {
                d matches AttemptDecision::Finish {
                    value: v,
                    version: w,
                    current_epoch: e,
                    stale,
                } && v == value && w == version && e == current_epoch && (stale <==> current_epoch
                    > epoch)
            }
        }),
{
}

/// A write that never left the client is no more uncertain than before: it is tried again, or its
/// time is over.
pub proof fn law_unsent_writes_are_certain(epoch: u64, writes: bool, versioned: bool, unknown: bool)
    ensures
        decision(AttemptOutcome::NotConnected, epoch, writes, versioned, unknown) == (
        AttemptDecision::Retry {
            refresh: Refresh::AfterUnavailable,
            said: unknown,
            unknown: unknown,
        }),
        decision(AttemptOutcome::ConnectTimedOut, epoch, writes, versioned, unknown)
            == AttemptDecision::Fail(
            ClientError::DeadlineExceeded { unknown_write_outcome: unknown },
        ),
{
}

/// A call that did not reach the node, or was not allowed to act there, has changed nothing; any
/// other failed call may have.
pub open spec fn changed_nothing(code: Code) -> bool {
    ||| code == Code::InvalidArgument
    ||| code == Code::NotFound
    ||| code == Code::AlreadyExists
    ||| code == Code::PermissionDenied
    ||| code == Code::ResourceExhausted
    ||| code == Code::FailedPrecondition
    ||| code == Code::Aborted
    ||| code == Code::OutOfRange
    ||| code == Code::Unimplemented
    ||| code == Code::Unauthenticated
}

/// After a failed call a write is uncertain exactly where it was before or the call may have taken
/// effect, and a read never is. Only an unavailable node is tried again; any other failure is
/// reported as it came. A write that was sent and not answered is uncertain.
pub proof fn law_failed_calls_are_reported_honestly(
    status: Status,
    epoch: u64,
    writes: bool,
    versioned: bool,
    unknown: bool,
)
    ensures
        ({
            let d = decision(AttemptOutcome::Failed(status), epoch, writes, versioned, unknown);
            let now = writes && (unknown || !changed_nothing(status.code));
            if status.code == Code::Unavailable {
                d == (AttemptDecision::Retry {
                    refresh: Refresh::AfterUnavailable,
                    said: now,
                    unknown: now,
                })
            } else {
                d == AttemptDecision::Fail(
                    ClientError::Rpc {
                        code: status.code,
                        message: status.message,
                        unknown_write_outcome: now,
                    },
                )
            }
        }),
        may_have_applied(status.code) <==> !changed_nothing(status.code),
        decision(AttemptOutcome::TimedOut, epoch, writes, versioned, unknown)
            == AttemptDecision::Fail(
            ClientError::DeadlineExceeded { unknown_write_outcome: writes },
        ),
{
}

/// The refusals by which a node holds a new write back until a fence is lifted or room is made are
/// all retried by a client, under the same name and without doubt about its outcome.
pub proof fn law_held_back_writes_are_retried(
    n: NodeView,
    m: MutationView,
    ready: Seq<Seq<char>>,
    journal: nat,
    now: u64,
    error: OperationError,
    epoch: u64,
    versioned: bool,
    unknown: bool,
)
    requires
        recall(n.receipts, m) is Unknown,
        n.decide(m, ready, journal, now) == DecisionView::Refused(error@),
    ensures
        ({
            let d = decision(AttemptOutcome::Refused(error), epoch, true, versioned, unknown);
            d matches AttemptDecision::Retry { said, unknown: next, .. } && said == unknown && next
                == unknown
        }),
{
    assert(error.code == error@.code && error.retryable == error@.retryable);
}

/// A topology that cannot be had for now is asked for again; one that is wrong is not.
pub proof fn law_passing_refresh_failures_are_retried(e: TopologyRefreshError)
    ensures
        e is Transport ==> e.passes(),
        e matches TopologyRefreshError::Rpc(status) ==> (e.passes() <==> status.code
            == Code::Unavailable),
        e is InvalidTopology || e is ConflictingEpoch ==> !e.passes(),
{
}

/// Waits double from try to try, from five milliseconds up to a limit; the random part at most
/// doubles a wait, every wait in between occurs, and none is longer than two hundred
/// milliseconds.
pub proof fn law_waits_double(attempt: u32, random: u64, extra: u64)
    ensures
        base_delay(0) == 5,
        attempt < 5 ==> base_delay((attempt + 1) as u32) == 2 * base_delay(attempt),
        attempt >= 5 ==> base_delay(attempt) == base_delay(5),
        base_delay(attempt) <= delay_for(attempt, random) <= 2 * base_delay(attempt),
        delay_for(attempt, random) <= 200,
        extra <= base_delay(attempt) && base_delay(attempt) + extra <= 200 ==> delay_for(
            attempt,
            extra,
        ) == base_delay(attempt) + extra,
{
    let base = base_delay(attempt);
    assert(random as int % (base + 1) <= base);
    if extra <= base {
        vstd::arithmetic::div_mod::lemma_small_mod(extra as nat, (base + 1) as nat);
    }
}

/// A refresh that was asked for runs until it has seen every request, and aims at the newest epoch
/// that was asked for; with no request since it began, it ends.
pub proof fn law_refreshes_see_every_request(
    before: BackgroundRefresh,
    minimum_epoch: u64,
    handled: u64,
)
    requires
        before.triggers < u64::MAX,
    ensures
        ({
            let after = before.triggered(minimum_epoch);
            &&& after.running
            &&& after.triggers == before.triggers + 1
            &&& after.minimum_epoch >= minimum_epoch && after.minimum_epoch >= before.minimum_epoch
            &&& after.minimum_epoch == minimum_epoch || after.minimum_epoch == before.minimum_epoch
            &&& after.ended(handled).running <==> handled < after.triggers
            &&& after.ended(handled).triggers == after.triggers
            &&& after.ended(handled).minimum_epoch == after.minimum_epoch
        }),
{
}

/// Two topologies are in conflict exactly if they are of one epoch and differ.
pub proof fn law_one_epoch_has_one_topology(current: SnapshotView, fetched: SnapshotView)
    ensures
        conflicts(current, fetched) <==> current.epoch == fetched.epoch && current != fetched,
{
}

} // verus!
