//! What a client makes of the answers it gets.
use crate::errors::{Code, ErrorCode, OperationError, Status};
use crate::limits::{DEFAULT_MAX_KEY_BYTES, DEFAULT_MAX_VALUE_BYTES};
use crate::migration::random_id;
use crate::records::RecordVersion;
use crate::text::{around_number, decimal_text, joined, owned};
use crate::topology::{topology_error_text, SnapshotView, TopologyError, TopologySnapshot};
use vstd::prelude::*;

verus! {

/// How often a client asks for a newer topology, where nothing else is said.
pub const DEFAULT_TOPOLOGY_POLL_INTERVAL_NANOS: u64 = 5_000_000_000;

/// By how many percent the time between two polls varies.
pub const POLL_JITTER_PERCENT: u32 = 20;

/// A value that was read.
#[derive(Debug, Eq, PartialEq)]
pub struct GetOutput {
    pub value: Vec<u8>,
    pub version: RecordVersion,
    pub topology_epoch: u64,
}

/// A write that was acknowledged.
#[derive(Debug, Eq, PartialEq)]
pub struct PutOutput {
    pub version: RecordVersion,
    pub topology_epoch: u64,
}

/// A deletion that was acknowledged.
#[derive(Debug, Eq, PartialEq)]
pub struct DeleteOutput {
    pub topology_epoch: u64,
}

/// An operation that a node has refused.
#[derive(Debug, Eq, PartialEq)]
pub struct OperationFailure {
    pub code: ErrorCode,
    pub message: String,
    pub retryable: bool,
    pub unknown_write_outcome: bool,
}

impl From<OperationError> for OperationFailure {
    fn from(error: OperationError) -> (r: Self) {
        OperationFailure {
            code: error.code,
            message: error.message,
            retryable: error.retryable,
            unknown_write_outcome: error.unknown_write_outcome,
        }
    }
}

impl vstd::std_specs::convert::FromSpecImpl<OperationError> for OperationFailure {
    open spec fn obeys_from_spec() -> bool {
        true
    }

    open spec fn from_spec(error: OperationError) -> Self {
        OperationFailure {
            code: error.code,
            message: error.message,
            retryable: error.retryable,
            unknown_write_outcome: error.unknown_write_outcome,
        }
    }
}

/// Why a topology could not be refreshed.
#[derive(Debug, Eq, PartialEq)]
pub enum TopologyRefreshError {
    /// The coordinator could not be reached; what was said.
    Transport(String),
    Rpc(Status),
    InvalidTopology(TopologyError),
    /// Two different topologies have one epoch.
    ConflictingEpoch { epoch: u64, cached_digest: String, fetched_digest: String },
}

/// Why an operation failed.
#[derive(Debug, Eq, PartialEq)]
pub enum ClientError {
    /// No topology could be had; what was said.
    Topology(String),
    TopologyRefresh { source: TopologyRefreshError, unknown_write_outcome: bool },
    Operation(OperationFailure),
    DeadlineExceeded { unknown_write_outcome: bool },
    MissingVersion,
    Rpc { code: Code, message: String, unknown_write_outcome: bool },
}

/// How a client behaves; times are in nanoseconds.
#[derive(Clone, Copy, Debug, Eq, PartialEq, Structural)]
pub struct ClientConfig {
    pub operation_timeout: u64,
    pub topology_refresh_timeout: u64,
    pub topology_poll_interval: Option<u64>,
}

impl ClientConfig {
    pub fn new(operation_timeout: u64) -> (r: Self)
        ensures
            r == (ClientConfig {
                operation_timeout: operation_timeout,
                topology_refresh_timeout: operation_timeout,
                topology_poll_interval: Some(DEFAULT_TOPOLOGY_POLL_INTERVAL_NANOS),
            }),
    {
        ClientConfig {
            operation_timeout: operation_timeout,
            topology_refresh_timeout: operation_timeout,
            topology_poll_interval: Some(DEFAULT_TOPOLOGY_POLL_INTERVAL_NANOS),
        }
    }

    /// How often a topology is asked for, if it is at all.
    pub fn polls_every(&self) -> (r: Option<u64>)
        ensures
            r == match self.topology_poll_interval {
                Some(interval) => if interval == 0 {
                    None
                } else {
                    Some(interval)
                },
                None => None,
            },
    {
        match self.topology_poll_interval {
            Some(interval) => if interval == 0 {
                None
            } else {
                Some(interval)
            },
            None => None,
        }
    }
}

/// A call may have taken effect although it failed.
pub open spec fn may_have_applied(code: Code) -> bool {
    code is Cancelled || code is Unknown || code is DeadlineExceeded || code is Internal
        || code is Unavailable || code is DataLoss
}

/// Tells whether a call may have taken effect although it failed.
pub fn status_may_have_applied(status: &Status) -> (r: bool)
    ensures
        r == may_have_applied(status.code),
{
    matches!(
        status.code,
        Code::Cancelled | Code::Unknown | Code::DeadlineExceeded | Code::Internal | Code::Unavailable | Code::DataLoss
    )
}

/// Once a write may have taken effect, no later answer makes that certain again.
pub fn accumulated_write_ambiguity(already_unknown: bool, status: &Status) -> (r: bool)
    ensures
        r == (already_unknown || may_have_applied(status.code)),
{
    already_unknown || status_may_have_applied(status)
}

/// Tells whether a failed call is worth another try.
pub fn retryable_status(status: &Status) -> (r: bool)
    ensures
        r == (status.code is Unavailable),
{
    status.code == Code::Unavailable
}

impl TopologyRefreshError {
    /// A later try may go better.
    pub open spec fn passes(self) -> bool {
        match self {
            TopologyRefreshError::Transport(_) => true,
            TopologyRefreshError::Rpc(status) => status.code is Unavailable,
            _ => false,
        }
    }

    /// Tells whether a later try may go better.
    pub fn is_retryable(&self) -> (r: bool)
        ensures
            r == self.passes(),
    {
        match self {
            TopologyRefreshError::Transport(_) => true,
            TopologyRefreshError::Rpc(status) => retryable_status(status),
            _ => false,
        }
    }
}

/// The failure of a call, with what is known of a write.
pub fn rpc_error(status: Status, unknown_write_outcome: bool) -> (r: ClientError)
    ensures
        r == (ClientError::Rpc {
            code: status.code,
            message: status.message,
            unknown_write_outcome: unknown_write_outcome,
        }),
{
    ClientError::Rpc {
        code: status.code,
        message: status.message,
        unknown_write_outcome: unknown_write_outcome,
    }
}

/// What is said of something that is too large.
pub open spec fn says_too_large(e: ClientError, message: Seq<char>) -> bool {
    match e {
        ClientError::Operation(failure) => {
            &&& failure.code is TooLarge
            &&& failure.message@ == message
            &&& !failure.retryable
            &&& !failure.unknown_write_outcome
        },
        _ => false,
    }
}

/// The failure of an operation on something that is too large.
pub fn size_failure(message: String) -> (r: ClientError)
    ensures
        says_too_large(r, message@),
{
    ClientError::Operation(
        OperationFailure {
            code: ErrorCode::TooLarge,
            message: message,
            retryable: false,
            unknown_write_outcome: false,
        },
    )
}

/// Checks that a key is not too large.
pub fn validate_key_size(key: &[u8]) -> (r: Result<(), ClientError>)
    ensures
        r is Ok == (key@.len() <= DEFAULT_MAX_KEY_BYTES),
        r matches Err(e) ==> says_too_large(
            e,
            "key exceeds "@ + decimal_text(65_536) + " bytes"@,
        ),
{
    if key.len() > DEFAULT_MAX_KEY_BYTES {
        return Err(size_failure(around_number("key exceeds ", 65_536, " bytes")));
    }
    Ok(())
}

/// Checks that a value is not too large.
pub fn validate_value_size(value: &[u8]) -> (r: Result<(), ClientError>)
    ensures
        r is Ok == (value@.len() <= DEFAULT_MAX_VALUE_BYTES),
        r matches Err(e) ==> says_too_large(
            e,
            "value exceeds "@ + decimal_text(8_388_608) + " bytes"@,
        ),
{
    if value.len() > DEFAULT_MAX_VALUE_BYTES {
        return Err(size_failure(around_number("value exceeds ", 8_388_608, " bytes")));
    }
    Ok(())
}

/// A name for one operation, the same in all its tries.
pub fn new_request_id() -> (r: String)
    ensures
        r@.len() == 36,
{
    random_id()
}

/// How much time is left, if any.
pub fn remaining(deadline: u64, now: u64, unknown_write_outcome: bool) -> (r: Result<
    u64,
    ClientError,
>)
    ensures
        r == if now < deadline {
            Ok::<u64, ClientError>((deadline - now) as u64)
        } else {
            Err(ClientError::DeadlineExceeded { unknown_write_outcome: unknown_write_outcome })
        },
{
    if now < deadline {
        Ok(deadline - now)
    } else {
        Err(ClientError::DeadlineExceeded { unknown_write_outcome: unknown_write_outcome })
    }
}

/// How the topology is refreshed before the next try.
#[derive(Clone, Copy, Debug, Eq, PartialEq, Structural)]
pub enum Refresh {
    /// Not at all.
    Keep,
    /// Once, unless somebody else has; a failure does not matter.
    AfterUnavailable,
    /// Until it has this epoch at least.
    AtLeast(u64),
    /// Once; a failure counts.
    Once,
}

/// How a refused operation is tried again, if it is.
pub open spec fn retry_of(error: OperationError, attempted_epoch: u64) -> Option<Refresh> {
    let next = if attempted_epoch == u64::MAX {
        u64::MAX
    } else {
        (attempted_epoch + 1) as u64
    };
    match error.code {
        ErrorCode::Moved => Some(
            Refresh::AtLeast(
                if error.current_epoch > next {
                    error.current_epoch
                } else {
                    next
                },
            ),
        ),
        ErrorCode::Unavailable => if error.retryable {
            Some(Refresh::AfterUnavailable)
        } else {
            None
        },
        ErrorCode::RangeBusy
        | ErrorCode::ResourceExhausted
        | ErrorCode::TemporarilyUnavailable
        | ErrorCode::ReplicaNotReady
        | ErrorCode::OutcomeUnknown => if !error.retryable {
            None
        } else if error.current_epoch > attempted_epoch {
            Some(Refresh::AtLeast(error.current_epoch))
        } else {
            Some(Refresh::Keep)
        },
        ErrorCode::LeaseExpired => if error.retryable {
            Some(Refresh::Once)
        } else {
            None
        },
        _ => None,
    }
}

/// Decides how a refused operation is tried again.
pub fn handle_retryable(error: &OperationError, attempted_epoch: u64) -> (r: Option<Refresh>)
    ensures
        r == retry_of(*error, attempted_epoch),
{
    match error.code {
        ErrorCode::Moved => {
            let next = attempted_epoch.saturating_add(1);
            if error.current_epoch > next {
                Some(Refresh::AtLeast(error.current_epoch))
            } else {
                Some(Refresh::AtLeast(next))
            }
        },
        ErrorCode::Unavailable => if error.retryable {
            Some(Refresh::AfterUnavailable)
        } else {
            None
        },
        ErrorCode::RangeBusy
        | ErrorCode::ResourceExhausted
        | ErrorCode::TemporarilyUnavailable
        | ErrorCode::ReplicaNotReady
        | ErrorCode::OutcomeUnknown => if !error.retryable {
            None
        } else if error.current_epoch > attempted_epoch {
            Some(Refresh::AtLeast(error.current_epoch))
        } else {
            Some(Refresh::Keep)
        },
        ErrorCode::LeaseExpired => if error.retryable {
            Some(Refresh::Once)
        } else {
            None
        },
        _ => None,
    }
}

/// What came of one try of an operation.
pub enum AttemptOutcome {
    /// The node could not be reached in time.
    ConnectTimedOut,
    /// The node could not be reached.
    NotConnected,
    /// The call failed.
    Failed(Status),
    /// The call was not answered in time.
    TimedOut,
    /// The node has refused the operation.
    Refused(OperationError),
    /// The node has carried out the operation.
    Answered { value: Vec<u8>, version: Option<RecordVersion>, current_epoch: u64 },
}

/// What is done after one try of an operation.
pub enum AttemptDecision {
    Fail(ClientError),
    /// Try again. `said` is what a failure before the next try says of the write, `unknown` what
    /// the next try begins with.
    Retry { refresh: Refresh, said: bool, unknown: bool },
    /// Hand out the answer; the topology may be older than what the node knows.
    Finish { value: Vec<u8>, version: Option<RecordVersion>, current_epoch: u64, stale: bool },
}

/// What is done after one try of an operation that `writes` or not, in `epoch`, where it was
/// already `unknown` whether an earlier try took effect. `versioned` operations must be
/// answered with a version.
pub open spec fn decision(
    outcome: AttemptOutcome,
    epoch: u64,
    writes: bool,
    versioned: bool,
    unknown: bool,
) -> AttemptDecision {
    match outcome {
        AttemptOutcome::ConnectTimedOut => AttemptDecision::Fail(
            ClientError::DeadlineExceeded { unknown_write_outcome: unknown },
        ),
        AttemptOutcome::NotConnected => AttemptDecision::Retry {
            refresh: Refresh::AfterUnavailable,
            said: unknown,
            unknown: unknown,
        },
        AttemptOutcome::Failed(status) => {
            let now = writes && (unknown || may_have_applied(status.code));
            if status.code is Unavailable {
                AttemptDecision::Retry {
                    refresh: Refresh::AfterUnavailable,
                    said: now,
                    unknown: now,
                }
            } else {
                AttemptDecision::Fail(
                    ClientError::Rpc {
                        code: status.code,
                        message: status.message,
                        unknown_write_outcome: now,
                    },
                )
            }
        },
        AttemptOutcome::TimedOut => AttemptDecision::Fail(
            ClientError::DeadlineExceeded { unknown_write_outcome: writes },
        ),
        AttemptOutcome::Refused(error) => {
            let said = writes && (unknown || error.unknown_write_outcome);
            match retry_of(error, epoch) {
                Some(refresh) => AttemptDecision::Retry {
                    refresh: refresh,
                    said: said,
                    unknown: unknown,
                },
                None => AttemptDecision::Fail(
                    ClientError::Operation(
                        OperationFailure {
                            code: error.code,
                            message: error.message,
                            retryable: error.retryable,
                            unknown_write_outcome: if writes {
                                said
                            } else {
                                error.unknown_write_outcome
                            },
                        },
                    ),
                ),
            }
        },
        AttemptOutcome::Answered { value, version, current_epoch } => if versioned && version is None {
            AttemptDecision::Fail(ClientError::MissingVersion)
        } else {
            AttemptDecision::Finish {
                value: value,
                version: version,
                current_epoch: current_epoch,
                stale: current_epoch > epoch,
            }
        },
    }
}

/// Decides what is done after one try of an operation.
pub fn judge_attempt(
    outcome: AttemptOutcome,
    epoch: u64,
    writes: bool,
    versioned: bool,
    unknown: bool,
) -> (r: AttemptDecision)
    requires
        unknown ==> writes,
    ensures
        r == decision(outcome, epoch, writes, versioned, unknown),
{
    match outcome {
        AttemptOutcome::ConnectTimedOut => AttemptDecision::Fail(
            ClientError::DeadlineExceeded { unknown_write_outcome: unknown },
        ),
        AttemptOutcome::NotConnected => AttemptDecision::Retry {
            refresh: Refresh::AfterUnavailable,
            said: unknown,
            unknown: unknown,
        },
        AttemptOutcome::Failed(status) => {
            let now = writes && accumulated_write_ambiguity(unknown, &status);
            if retryable_status(&status) {
                AttemptDecision::Retry {
                    refresh: Refresh::AfterUnavailable,
                    said: now,
                    unknown: now,
                }
            } else {
                AttemptDecision::Fail(rpc_error(status, now))
            }
        },
        AttemptOutcome::TimedOut => AttemptDecision::Fail(
            ClientError::DeadlineExceeded { unknown_write_outcome: writes },
        ),
        AttemptOutcome::Refused(error) => {
            let said = writes && (unknown || error.unknown_write_outcome);
            match handle_retryable(&error, epoch) {
                Some(refresh) => AttemptDecision::Retry {
                    refresh: refresh,
                    said: said,
                    unknown: unknown,
                },
                None => {
                    let mut failure = OperationFailure::from(error);
                    if writes {
                        failure.unknown_write_outcome = said;
                    }
                    AttemptDecision::Fail(ClientError::Operation(failure))
                },
            }
        },
        AttemptOutcome::Answered { value, version, current_epoch } => if versioned
            && version.is_none() {
            AttemptDecision::Fail(ClientError::MissingVersion)
        } else {
            AttemptDecision::Finish {
                value: value,
                version: version,
                current_epoch: current_epoch,
                stale: current_epoch > epoch,
            }
        },
    }
}

/// A write that may have taken effect stays uncertain, whatever later tries bring.
pub proof fn law_uncertainty_of_writes_is_sticky(
    outcome: AttemptOutcome,
    epoch: u64,
    versioned: bool,
)
    ensures
        match decision(outcome, epoch, true, versioned, true) {
            AttemptDecision::Fail(ClientError::DeadlineExceeded { unknown_write_outcome }) =>
                unknown_write_outcome,
            AttemptDecision::Fail(ClientError::Rpc { unknown_write_outcome, .. }) =>
                unknown_write_outcome,
            AttemptDecision::Fail(ClientError::Operation(failure)) =>
                failure.unknown_write_outcome,
            AttemptDecision::Retry { said, unknown, .. } => said && unknown,
            _ => true,
        },
{
}

/// What comes of a command to the coordinator that was not answered as it should be: it may
/// have taken effect where it was sent.
pub fn command_failure(outcome: Option<Status>) -> (r: ClientError)
    ensures
        r == match outcome {
            Some(status) => ClientError::Rpc {
                code: status.code,
                message: status.message,
                unknown_write_outcome: may_have_applied(status.code),
            },
            None => ClientError::DeadlineExceeded { unknown_write_outcome: true },
        },
{
    match outcome {
        Some(status) => {
            let unknown = status_may_have_applied(&status);
            rpc_error(status, unknown)
        },
        None => ClientError::DeadlineExceeded { unknown_write_outcome: true },
    }
}

/// The longest wait before a try, without its random part, in milliseconds.
pub open spec fn base_delay(attempt: u32) -> u64 {
    if attempt == 0 {
        5
    } else if attempt == 1 {
        10
    } else if attempt == 2 {
        20
    } else if attempt == 3 {
        40
    } else if attempt == 4 {
        80
    } else {
        160
    }
}

/// How long a try waits for a random number, in milliseconds.
pub open spec fn delay_for(attempt: u32, random: u64) -> u64 {
    let base = base_delay(attempt);
    let whole = base + random as int % (base + 1);
    if whole < 200 {
        whole as u64
    } else {
        200
    }
}

/// How long a try waits for a random number, and which one the next try is.
pub fn retry_delay_for(attempt: u32, random: u64) -> (r: (u64, u32))
    ensures
        r.0 == delay_for(attempt, random),
        r.1 == if attempt == u32::MAX {
            u32::MAX
        } else {
            (attempt + 1) as u32
        },
{
    let shift: u64 = if attempt < 5 {
        attempt as u64
    } else {
        5
    };
    let power = 1u64 << shift;
    proof {
        assert(1u64 << 0u64 == 1) by (bit_vector);
        assert(1u64 << 1u64 == 2) by (bit_vector);
        assert(1u64 << 2u64 == 4) by (bit_vector);
        assert(1u64 << 3u64 == 8) by (bit_vector);
        assert(1u64 << 4u64 == 16) by (bit_vector);
        assert(1u64 << 5u64 == 32) by (bit_vector);
        assert(power <= 32);
    }
    let base = 5 * power;
    let whole = base + random % (base + 1);
    let delay = if whole < 200 {
        whole
    } else {
        200
    };
    (delay, attempt.saturating_add(1))
}

/// `rand::random` for 64 bits: any number may come.
#[verifier::external_body]
fn random_u64() -> (r: u64) {
    rand::random::<u64>()
}

/// `rand::random` for 32 bits: any number may come.
#[verifier::external_body]
fn random_u32() -> (r: u32) {
    rand::random::<u32>()
}

/// How long a try waits, and which one the next try is. The wait grows with the tries, up to a
/// limit, and varies so that clients do not come back all at once.
pub fn retry_delay(attempt: u32) -> (r: (u64, u32))
    ensures
        exists|random: u64| #[trigger] delay_for(attempt, random) == r.0,
        base_delay(attempt) <= r.0 <= 200,
        r.0 <= 2 * base_delay(attempt),
        r.1 == if attempt == u32::MAX {
            u32::MAX
        } else {
            (attempt + 1) as u32
        },
{
    let random = random_u64();
    let r = retry_delay_for(attempt, random);
    proof {
        assert(delay_for(attempt, random) == r.0);
    }
    r
}

/// How long the next wait for a newer topology is, in percent of the interval.
pub fn poll_percent_for(random: u32) -> (r: u32)
    ensures
        r == 100 - POLL_JITTER_PERCENT + random % ((2 * POLL_JITTER_PERCENT + 1) as u32),
{
    let steps = 2 * POLL_JITTER_PERCENT + 1;
    100 - POLL_JITTER_PERCENT + random % steps
}

/// How long the next wait for a newer topology is, in percent of the interval.
pub fn jittered_poll_percent() -> (r: u32)
    ensures
        80 <= r <= 120,
{
    poll_percent_for(random_u32())
}

/// A conflict between two topologies of one epoch.
pub open spec fn conflicts(current: SnapshotView, fetched: SnapshotView) -> bool {
    fetched.epoch == current.epoch && fetched != current
}

/// The error names both topologies of a conflict.
pub open spec fn names_conflict(
    e: TopologyRefreshError,
    current: SnapshotView,
    fetched: SnapshotView,
) -> bool {
    match e {
        TopologyRefreshError::ConflictingEpoch { epoch, cached_digest, fetched_digest } => {
            &&& epoch == fetched.epoch
            &&& cached_digest@ == current.digest
            &&& fetched_digest@ == fetched.digest
        },
        _ => false,
    }
}

/// Takes over a topology if it is newer; one of the same epoch must be the same.
pub fn adopt_topology(current: &mut TopologySnapshot, fetched: TopologySnapshot) -> (r: Result<
    (),
    TopologyRefreshError,
>)
    ensures
        r is Err == conflicts(old(current)@, fetched@),
        r matches Err(e) ==> names_conflict(e, old(current)@, fetched@),
        final(current)@ == if fetched@.epoch > old(current)@.epoch {
            fetched@
        } else {
            old(current)@
        },
{
    if fetched.epoch > current.epoch {
        *current = fetched;
        Ok(())
    } else if fetched.epoch == current.epoch && !fetched.same(current) {
        Err(
            TopologyRefreshError::ConflictingEpoch {
                epoch: fetched.epoch,
                cached_digest: current.digest.clone(),
                fetched_digest: fetched.digest,
            },
        )
    } else {
        Ok(())
    }
}

/// What is done after one try to refresh a topology.
pub enum RefreshDecision {
    /// It is new enough.
    Finish,
    /// Try again later.
    Retry,
    Fail(ClientError),
}

/// Takes over what a coordinator has answered, and decides whether that is enough. `fetched` is
/// nothing where no answer came in time.
pub fn refresh_topology(
    current: &mut TopologySnapshot,
    fetched: Option<Result<TopologySnapshot, TopologyRefreshError>>,
    minimum_epoch: Option<u64>,
    unknown_write_outcome: bool,
) -> (r: RefreshDecision)
    ensures
        final(current)@.epoch >= old(current)@.epoch,
        match fetched {
            None => final(current)@ == old(current)@ && r == RefreshDecision::Fail(
                ClientError::DeadlineExceeded { unknown_write_outcome: unknown_write_outcome },
            ),
            Some(Err(error)) => final(current)@ == old(current)@ && r == if error.passes() {
                RefreshDecision::Retry
            } else {
                RefreshDecision::Fail(
                    ClientError::TopologyRefresh {
                        source: error,
                        unknown_write_outcome: unknown_write_outcome,
                    },
                )
            },
            Some(Ok(topology)) => if conflicts(old(current)@, topology@) {
                &&& final(current)@ == old(current)@
                &&& match r {
                    RefreshDecision::Fail(
                        ClientError::TopologyRefresh { source, unknown_write_outcome: said },
                    ) => names_conflict(source, old(current)@, topology@) && said
                        == unknown_write_outcome,
                    _ => false,
                }
            } else {
                &&& final(current)@ == if topology@.epoch > old(current)@.epoch {
                    topology@
                } else {
                    old(current)@
                }
                &&& r == if minimum_epoch is Some && final(current)@.epoch < minimum_epoch->0 {
                    RefreshDecision::Retry
                } else {
                    RefreshDecision::Finish
                }
            },
        },
{
    match fetched {
        None => RefreshDecision::Fail(
            ClientError::DeadlineExceeded { unknown_write_outcome: unknown_write_outcome },
        ),
        Some(Err(error)) => if error.is_retryable() {
            RefreshDecision::Retry
        } else {
            RefreshDecision::Fail(
                ClientError::TopologyRefresh {
                    source: error,
                    unknown_write_outcome: unknown_write_outcome,
                },
            )
        },
        Some(Ok(topology)) => match adopt_topology(current, topology) {
            Err(error) => RefreshDecision::Fail(
                ClientError::TopologyRefresh {
                    source: error,
                    unknown_write_outcome: unknown_write_outcome,
                },
            ),
            Ok(()) => {
                let enough = match minimum_epoch {
                    Some(minimum) => current.epoch >= minimum,
                    None => true,
                };
                if enough {
                    RefreshDecision::Finish
                } else {
                    RefreshDecision::Retry
                }
            },
        },
    }
}

/// Takes over what a coordinator has answered after a node was unavailable. An answer that did
/// not come in time ends the operation; one that is a failure does not. Tells whether a
/// topology came.
pub fn refresh_after_unavailable(
    current: &mut TopologySnapshot,
    fetched: Option<Result<TopologySnapshot, TopologyRefreshError>>,
    unknown_write_outcome: bool,
) -> (r: Result<bool, ClientError>)
    ensures
        final(current)@.epoch >= old(current)@.epoch,
        match fetched {
            None => final(current)@ == old(current)@ && r == Err::<bool, ClientError>(
                ClientError::DeadlineExceeded { unknown_write_outcome: unknown_write_outcome },
            ),
            Some(Err(_)) => final(current)@ == old(current)@ && r == Ok::<bool, ClientError>(false),
            Some(Ok(topology)) => {
                &&& final(current)@ == if topology@.epoch > old(current)@.epoch {
                    topology@
                } else {
                    old(current)@
                }
                &&& match r {
                    Ok(came) => came && !conflicts(old(current)@, topology@),
                    Err(ClientError::TopologyRefresh { source, unknown_write_outcome: said }) => {
                        &&& conflicts(old(current)@, topology@)
                        &&& names_conflict(source, old(current)@, topology@)
                        &&& said == unknown_write_outcome
                    },
                    Err(_) => false,
                }
            },
        },
{
    match fetched {
        None => Err(ClientError::DeadlineExceeded { unknown_write_outcome: unknown_write_outcome }),
        Some(Err(_)) => Ok(false),
        Some(Ok(topology)) => match adopt_topology(current, topology) {
            Err(error) => Err(
                ClientError::TopologyRefresh {
                    source: error,
                    unknown_write_outcome: unknown_write_outcome,
                },
            ),
            Ok(()) => Ok(true),
        },
    }
}

/// Decides whether a poll that found `published` asks for the topology, and for which epoch at
/// least.
pub fn poll_for_topology_changes(cached_epoch: u64, published: Option<u64>) -> (r: Option<u64>)
    ensures
        r == match published {
            Some(epoch) => if cached_epoch < epoch {
                Some(epoch)
            } else {
                None
            },
            None => None,
        },
{
    match published {
        Some(epoch) if cached_epoch < epoch => Some(epoch),
        _ => None,
    }
}

/// Tells whether a topology need not be refreshed after a node was unavailable: it is newer
/// than the one that was used, or somebody else has asked in the meantime.
pub fn refreshed_meanwhile(
    current_epoch: u64,
    observed_epoch: u64,
    generation: u64,
    generation_before: u64,
) -> (r: bool)
    ensures
        r == (current_epoch > observed_epoch || generation != generation_before),
{
    current_epoch > observed_epoch || generation != generation_before
}

/// Refreshes that were asked for in passing: one at a time, and none of them lost.
#[derive(Clone, Copy, Debug, Eq, PartialEq, Structural)]
pub struct BackgroundRefresh {
    pub running: bool,
    pub minimum_epoch: u64,
    pub triggers: u64,
}

impl BackgroundRefresh {
    /// One more refresh was asked for.
    pub open spec fn triggered(self, minimum_epoch: u64) -> BackgroundRefresh {
        BackgroundRefresh {
            running: true,
            minimum_epoch: if minimum_epoch > self.minimum_epoch {
                minimum_epoch
            } else {
                self.minimum_epoch
            },
            triggers: (self.triggers + 1) as u64,
        }
    }

    /// A refresh that began when `handled` had been asked for is over.
    pub open spec fn ended(self, handled: u64) -> BackgroundRefresh {
        BackgroundRefresh { running: self.triggers > handled, ..self }
    }

    pub fn new() -> (r: Self)
        ensures
            r == (BackgroundRefresh { running: false, minimum_epoch: 0, triggers: 0 }),
    {
        BackgroundRefresh { running: false, minimum_epoch: 0, triggers: 0 }
    }

    /// Asks for a refresh, and tells whether it has to be started.
    pub fn trigger_background_refresh(&mut self, minimum_epoch: u64) -> (starts: bool)
        requires
            old(self).triggers < u64::MAX,
        ensures
            starts == !old(self).running,
            *final(self) == old(self).triggered(minimum_epoch),
    {
        if minimum_epoch > self.minimum_epoch {
            self.minimum_epoch = minimum_epoch;
        }
        self.triggers = self.triggers + 1;
        let starts = !self.running;
        self.running = true;
        starts
    }

    /// Ends a refresh that began when `handled` had been asked for, and tells whether another
    /// one follows at once.
    pub fn run_background_refresh(&mut self, handled: u64) -> (again: bool)
        ensures
            *final(self) == old(self).ended(handled),
            again == final(self).running,
    {
        let again = self.triggers > handled;
        self.running = again;
        again
    }
}

/// A refresh that was asked for while another one ran is not lost: the one that runs is followed
/// by another.
pub proof fn law_triggers_are_not_lost(before: BackgroundRefresh, minimum_epoch: u64, handled: u64)
    requires
        before.triggers < u64::MAX,
        handled <= before.triggers,
    ensures
        before.triggered(minimum_epoch).ended(handled).running,
        before.triggered(minimum_epoch).ended(handled).minimum_epoch >= minimum_epoch,
{
}

/// The name of a class of refused calls.
pub open spec fn code_name(code: Code) -> Seq<char> {
    match code {
        Code::Cancelled => "Cancelled"@,
        Code::Unknown => "Unknown"@,
        Code::InvalidArgument => "InvalidArgument"@,
        Code::DeadlineExceeded => "DeadlineExceeded"@,
        Code::NotFound => "NotFound"@,
        Code::AlreadyExists => "AlreadyExists"@,
        Code::PermissionDenied => "PermissionDenied"@,
        Code::ResourceExhausted => "ResourceExhausted"@,
        Code::FailedPrecondition => "FailedPrecondition"@,
        Code::Aborted => "Aborted"@,
        Code::OutOfRange => "OutOfRange"@,
        Code::Unimplemented => "Unimplemented"@,
        Code::Internal => "Internal"@,
        Code::Unavailable => "Unavailable"@,
        Code::DataLoss => "DataLoss"@,
        Code::Unauthenticated => "Unauthenticated"@,
    }
}

fn name_code(code: Code) -> (r: String)
    ensures
        r@ == code_name(code),
{
    match code {
        Code::Cancelled => owned("Cancelled"),
        Code::Unknown => owned("Unknown"),
        Code::InvalidArgument => owned("InvalidArgument"),
        Code::DeadlineExceeded => owned("DeadlineExceeded"),
        Code::NotFound => owned("NotFound"),
        Code::AlreadyExists => owned("AlreadyExists"),
        Code::PermissionDenied => owned("PermissionDenied"),
        Code::ResourceExhausted => owned("ResourceExhausted"),
        Code::FailedPrecondition => owned("FailedPrecondition"),
        Code::Aborted => owned("Aborted"),
        Code::OutOfRange => owned("OutOfRange"),
        Code::Unimplemented => owned("Unimplemented"),
        Code::Internal => owned("Internal"),
        Code::Unavailable => owned("Unavailable"),
        Code::DataLoss => owned("DataLoss"),
        Code::Unauthenticated => owned("Unauthenticated"),
    }
}

/// The name of a class of failed operations.
pub open spec fn error_code_name(code: ErrorCode) -> Seq<char> {
    match code {
        ErrorCode::Unspecified => "Unspecified"@,
        ErrorCode::InvalidArgument => "InvalidArgument"@,
        ErrorCode::TooLarge => "TooLarge"@,
        ErrorCode::NotFound => "NotFound"@,
        ErrorCode::Moved => "Moved"@,
        ErrorCode::Unavailable => "Unavailable"@,
        ErrorCode::RangeBusy => "RangeBusy"@,
        ErrorCode::ResourceExhausted => "ResourceExhausted"@,
        ErrorCode::TemporarilyUnavailable => "TemporarilyUnavailable"@,
        ErrorCode::ReplicaNotReady => "ReplicaNotReady"@,
        ErrorCode::OutcomeUnknown => "OutcomeUnknown"@,
        ErrorCode::LeaseExpired => "LeaseExpired"@,
        ErrorCode::MutationIdConflict => "MutationIdConflict"@,
    }
}

fn name_error_code(code: ErrorCode) -> (r: String)
    ensures
        r@ == error_code_name(code),
{
    match code {
        ErrorCode::Unspecified => owned("Unspecified"),
        ErrorCode::InvalidArgument => owned("InvalidArgument"),
        ErrorCode::TooLarge => owned("TooLarge"),
        ErrorCode::NotFound => owned("NotFound"),
        ErrorCode::Moved => owned("Moved"),
        ErrorCode::Unavailable => owned("Unavailable"),
        ErrorCode::RangeBusy => owned("RangeBusy"),
        ErrorCode::ResourceExhausted => owned("ResourceExhausted"),
        ErrorCode::TemporarilyUnavailable => owned("TemporarilyUnavailable"),
        ErrorCode::ReplicaNotReady => owned("ReplicaNotReady"),
        ErrorCode::OutcomeUnknown => owned("OutcomeUnknown"),
        ErrorCode::LeaseExpired => owned("LeaseExpired"),
        ErrorCode::MutationIdConflict => owned("MutationIdConflict"),
    }
}

impl OperationFailure {
    /// What the failure says.
    pub fn message(&self) -> (r: String)
        ensures
            r@ == error_code_name(self.code) + ": "@ + self.message@,
    {
        let before = joined(name_error_code(self.code).as_str(), ": ");
        joined(before.as_str(), self.message.as_str())
    }
}

/// What a refresh that failed says; a refused call is told by its message.
pub open spec fn refresh_error_text(e: TopologyRefreshError) -> Seq<char> {
    match e {
        TopologyRefreshError::Transport(message) => "coordinator transport failed: "@ + message@,
        TopologyRefreshError::Rpc(status) => "coordinator topology RPC failed: "@ + status.message@,
        TopologyRefreshError::InvalidTopology(error) =>
            "coordinator returned an invalid topology: "@ + topology_error_text(error),
        TopologyRefreshError::ConflictingEpoch { epoch, cached_digest, fetched_digest } =>
            "coordinator returned conflicting topology digests for epoch "@ + decimal_text(
                epoch as nat,
            ) + ": cached="@ + cached_digest@ + ", fetched="@ + fetched_digest@,
    }
}

impl TopologyRefreshError {
    /// What the failure says.
    pub fn message(&self) -> (r: String)
        ensures
            r@ == refresh_error_text(*self),
    {
        match self {
            TopologyRefreshError::Transport(message) => joined(
                "coordinator transport failed: ",
                message.as_str(),
            ),
            TopologyRefreshError::Rpc(status) => joined(
                "coordinator topology RPC failed: ",
                status.message.as_str(),
            ),
            TopologyRefreshError::InvalidTopology(error) => joined(
                "coordinator returned an invalid topology: ",
                error.message().as_str(),
            ),
            TopologyRefreshError::ConflictingEpoch { epoch, cached_digest, fetched_digest } => {
                let a = around_number(
                    "coordinator returned conflicting topology digests for epoch ",
                    *epoch,
                    ": cached=",
                );
                let b = joined(a.as_str(), cached_digest.as_str());
                let c = joined(b.as_str(), ", fetched=");
                joined(c.as_str(), fetched_digest.as_str())
            },
        }
    }
}

/// What is said of a write whose outcome may be unknown.
pub open spec fn outcome_text(unknown: bool) -> Seq<char> {
    if unknown {
        " (unknown_write_outcome=true)"@
    } else {
        " (unknown_write_outcome=false)"@
    }
}

fn with_outcome(before: &str, unknown: bool) -> (r: String)
    ensures
        r@ == before@ + outcome_text(unknown),
{
    if unknown {
        joined(before, " (unknown_write_outcome=true)")
    } else {
        joined(before, " (unknown_write_outcome=false)")
    }
}

/// What a failed operation says.
pub open spec fn client_error_text(e: ClientError) -> Seq<char> {
    match e {
        ClientError::Topology(message) => "failed to fetch or validate topology: "@ + message@,
        ClientError::TopologyRefresh { source, unknown_write_outcome } =>
            "topology refresh failed: "@ + refresh_error_text(source) + outcome_text(
                unknown_write_outcome,
            ),
        ClientError::Operation(failure) => error_code_name(failure.code) + ": "@ + failure.message@,
        ClientError::DeadlineExceeded { unknown_write_outcome } =>
            "logical operation deadline exceeded"@ + outcome_text(unknown_write_outcome),
        ClientError::MissingVersion => "protocol response omitted record version"@,
        ClientError::Rpc { code, message, unknown_write_outcome } => "node RPC failed with "@
            + code_name(code) + ": "@ + message@ + outcome_text(unknown_write_outcome),
    }
}

impl ClientError {
    /// What the failure says.
    pub fn message(&self) -> (r: String)
        ensures
            r@ == client_error_text(*self),
    {
        match self {
            ClientError::Topology(message) => joined(
                "failed to fetch or validate topology: ",
                message.as_str(),
            ),
            ClientError::TopologyRefresh { source, unknown_write_outcome } => {
                let before = joined("topology refresh failed: ", source.message().as_str());
                with_outcome(before.as_str(), *unknown_write_outcome)
            },
            ClientError::Operation(failure) => failure.message(),
            ClientError::DeadlineExceeded { unknown_write_outcome } => with_outcome(
                "logical operation deadline exceeded",
                *unknown_write_outcome,
            ),
            ClientError::MissingVersion => owned("protocol response omitted record version"),
            ClientError::Rpc { code, message, unknown_write_outcome } => {
                let a = joined("node RPC failed with ", name_code(*code).as_str());
                let b = joined(a.as_str(), ": ");
                let c = joined(b.as_str(), message.as_str());
                with_outcome(c.as_str(), *unknown_write_outcome)
            },
        }
    }
}

} // verus!
