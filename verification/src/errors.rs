//! Outcomes that are answered over the wire.
use crate::text::owned;
use vstd::prelude::*;

verus! {

/// Class of a refused call.
#[derive(Clone, Copy, Debug, Eq, PartialEq, Structural)]
pub enum Code {
    Cancelled,
    Unknown,
    InvalidArgument,
    DeadlineExceeded,
    NotFound,
    AlreadyExists,
    PermissionDenied,
    ResourceExhausted,
    FailedPrecondition,
    Aborted,
    OutOfRange,
    Unimplemented,
    Internal,
    Unavailable,
    DataLoss,
    Unauthenticated,
}

/// A refused call.
#[derive(Debug, Eq, PartialEq)]
pub struct Status {
    pub code: Code,
    pub message: String,
}

#[verifier::ext_equal]
pub struct StatusView {
    pub code: Code,
    pub message: Seq<char>,
}

impl View for Status {
    type V = StatusView;

    open spec fn view(&self) -> StatusView {
        StatusView { code: self.code, message: self.message@ }
    }
}

/// A refused call.
pub open spec fn refusal(code: Code, message: Seq<char>) -> StatusView {
    StatusView { code: code, message: message }
}

impl Status {
    pub fn new(code: Code, message: &str) -> (r: Self)
        ensures
            r@ == refusal(code, message@),
    {
        Status { code: code, message: owned(message) }
    }
}

/// What a result is refused with, if it is.
pub open spec fn refused<T>(r: Result<T, Status>) -> Option<StatusView> {
    match r {
        Ok(_) => None,
        Err(s) => Some(s@),
    }
}

/// Class of a failed operation on a key.
#[derive(Clone, Copy, Debug, Eq, PartialEq, Structural)]
pub enum ErrorCode {
    Unspecified,
    InvalidArgument,
    TooLarge,
    NotFound,
    Moved,
    Unavailable,
    RangeBusy,
    ResourceExhausted,
    TemporarilyUnavailable,
    ReplicaNotReady,
    OutcomeUnknown,
    LeaseExpired,
    MutationIdConflict,
}

/// A failed operation on a key, as a node answers it.
#[derive(Debug, Eq, PartialEq)]
pub struct OperationError {
    pub code: ErrorCode,
    pub message: String,
    pub current_epoch: u64,
    pub owner_endpoint: String,
    pub retryable: bool,
    pub unknown_write_outcome: bool,
    pub retry_after_millis: u64,
}

#[verifier::ext_equal]
pub struct OperationErrorView {
    pub code: ErrorCode,
    pub message: Seq<char>,
    pub current_epoch: u64,
    pub owner_endpoint: Seq<char>,
    pub retryable: bool,
    pub unknown_write_outcome: bool,
    pub retry_after_millis: u64,
}

impl View for OperationError {
    type V = OperationErrorView;

    open spec fn view(&self) -> OperationErrorView {
        OperationErrorView {
            code: self.code,
            message: self.message@,
            current_epoch: self.current_epoch,
            owner_endpoint: self.owner_endpoint@,
            retryable: self.retryable,
            unknown_write_outcome: self.unknown_write_outcome,
            retry_after_millis: self.retry_after_millis,
        }
    }
}

impl Clone for OperationError {
    fn clone(&self) -> (r: Self)
        ensures
            r@ == self@,
    {
        OperationError {
            code: self.code,
            message: self.message.clone(),
            current_epoch: self.current_epoch,
            owner_endpoint: self.owner_endpoint.clone(),
            retryable: self.retryable,
            unknown_write_outcome: self.unknown_write_outcome,
            retry_after_millis: self.retry_after_millis,
        }
    }
}

/// A failure that says nothing of epochs or owners.
pub open spec fn plain_error(code: ErrorCode, message: Seq<char>, retryable: bool) -> OperationErrorView {
    OperationErrorView {
        code: code,
        message: message,
        current_epoch: 0,
        owner_endpoint: Seq::empty(),
        retryable: retryable,
        unknown_write_outcome: false,
        retry_after_millis: 0,
    }
}

/// A failure in a known epoch.
pub open spec fn epoch_error(
    epoch: u64,
    code: ErrorCode,
    message: Seq<char>,
    retryable: bool,
) -> OperationErrorView {
    OperationErrorView { current_epoch: epoch, ..plain_error(code, message, retryable) }
}

/// A failure that says nothing of epochs or owners.
pub fn operation_error(code: ErrorCode, message: &str, retryable: bool) -> (r: OperationError)
    ensures
        r@ == plain_error(code, message@, retryable),
{
    let r = OperationError {
        code: code,
        message: owned(message),
        current_epoch: 0,
        owner_endpoint: String::new(),
        retryable: retryable,
        unknown_write_outcome: false,
        retry_after_millis: 0,
    };
    proof {
        assert(r@ =~= plain_error(code, message@, retryable));
    }
    r
}

/// A failure in a known epoch.
pub fn error_at(epoch: u64, code: ErrorCode, message: &str, retryable: bool) -> (r: OperationError)
    ensures
        r@ == epoch_error(epoch, code, message@, retryable),
{
    let mut r = operation_error(code, message, retryable);
    r.current_epoch = epoch;
    r
}

/// A failure that passes by itself.
pub open spec fn temporary(epoch: u64, message: Seq<char>) -> OperationErrorView {
    epoch_error(epoch, ErrorCode::TemporarilyUnavailable, message, true)
}

pub fn temporarily_unavailable(epoch: u64, message: &str) -> (r: OperationError)
    ensures
        r@ == temporary(epoch, message@),
{
    error_at(epoch, ErrorCode::TemporarilyUnavailable, message, true)
}

/// A write that may or may not have taken effect.
pub open spec fn uncertain(epoch: u64) -> OperationErrorView {
    OperationErrorView {
        unknown_write_outcome: true,
        ..epoch_error(
            epoch,
            ErrorCode::OutcomeUnknown,
            "required replica acknowledgement is uncertain"@,
            true,
        )
    }
}

pub fn outcome_unknown(epoch: u64) -> (r: OperationError)
    ensures
        r@ == uncertain(epoch),
{
    let mut r = error_at(
        epoch,
        ErrorCode::OutcomeUnknown,
        "required replica acknowledgement is uncertain",
        true,
    );
    r.unknown_write_outcome = true;
    r
}

/// A write that finds no room in the replication queues.
pub open spec fn backpressure(epoch: u64) -> OperationErrorView {
    epoch_error(
        epoch,
        ErrorCode::ResourceExhausted,
        "replication queue is full or requires catch-up; retry with backoff"@,
        true,
    )
}

pub fn replication_backpressure_error(epoch: u64) -> (r: OperationError)
    ensures
        r@ == backpressure(epoch),
{
    error_at(
        epoch,
        ErrorCode::ResourceExhausted,
        "replication queue is full or requires catch-up; retry with backoff",
        true,
    )
}

} // verus!
