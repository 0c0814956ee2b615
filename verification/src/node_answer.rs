//! What a write is answered, once it is known how far it came.
use crate::errors::{OperationError, OperationErrorView};
use crate::node_put::{OutcomeView, WriteOutcome};
use crate::node_write::{failed_read, GetResponse};
use crate::receipts::{AckView, RequiredAck};
use crate::records::{RecordVersion, VersionView};
use crate::views::{opt, views};
use vstd::prelude::*;

verus! {

/// The answer to a write. A delete is answered without a version.
#[derive(Debug, Eq, PartialEq)]
pub struct WriteResponse {
    pub version: Option<RecordVersion>,
    pub current_epoch: u64,
    pub error: Option<OperationError>,
}

#[verifier::ext_equal]
pub struct WriteResponseView {
    pub version: Option<VersionView>,
    pub current_epoch: u64,
    pub error: Option<OperationErrorView>,
}

impl View for WriteResponse {
    type V = WriteResponseView;

    open spec fn view(&self) -> WriteResponseView {
        WriteResponseView {
            version: opt(self.version),
            current_epoch: self.current_epoch,
            error: opt(self.error),
        }
    }
}

/// The answer to a write that fails.
pub open spec fn failed_write(error: OperationErrorView, epoch: u64) -> WriteResponseView {
    WriteResponseView { version: None, current_epoch: epoch, error: Some(error) }
}

/// The answer to a write that was applied.
pub open spec fn applied_write(
    version: VersionView,
    waited: Option<OperationErrorView>,
    deleted: bool,
    epoch: u64,
) -> WriteResponseView {
    match waited {
        Some(error) => failed_write(error, epoch),
        None => WriteResponseView {
            version: if deleted {
                None
            } else {
                Some(version)
            },
            current_epoch: epoch,
            error: None,
        },
    }
}

impl OutcomeView {
    /// The version and the acknowledgements that a write waits for, unless it was refused.
    pub open spec fn awaited(self) -> Option<(VersionView, Seq<AckView>)> {
        match self {
            OutcomeView::Refused(_) => None,
            OutcomeView::Known(version, acks) => Some((version, acks)),
            OutcomeView::Written(version, acks, _) => Some((version, acks)),
        }
    }

    /// The answer under the epoch in which the write was taken; `waited` is what went wrong
    /// while its acknowledgements were waited for, if anything did.
    pub open spec fn answered(
        self,
        waited: Option<OperationErrorView>,
        deleted: bool,
        epoch: u64,
    ) -> WriteResponseView {
        match self {
            OutcomeView::Refused(error) => failed_write(error, epoch),
            OutcomeView::Known(version, _) => applied_write(version, waited, deleted, epoch),
            OutcomeView::Written(version, _, _) => applied_write(version, waited, deleted, epoch),
        }
    }
}

impl WriteOutcome {
    /// The version and the acknowledgements that a write waits for, unless it was refused.
    pub fn awaited(&self) -> (r: Option<(&RecordVersion, &Vec<RequiredAck>)>)
        ensures
            match r {
                Some((version, acks)) => self@.awaited() == Some((version@, views(acks@))),
                None => self@.awaited() is None,
            },
    {
        match self {
            WriteOutcome::Refused(_) => None,
            WriteOutcome::Known { version, required_acks } => Some((version, required_acks)),
            WriteOutcome::Written { version, required_acks, .. } => Some((version, required_acks)),
        }
    }

    /// Answers a write: with a version only where nothing went wrong, and with the epoch in
    /// which it was taken in every case.
    pub fn answer(self, waited: Option<OperationError>, deleted: bool, epoch: u64) -> (r:
        WriteResponse)
        ensures
            r@ == self@.answered(opt(waited), deleted, epoch),
    {
        let (version, error) = match self {
            WriteOutcome::Refused(error) => (None, Some(error)),
            WriteOutcome::Known { version, .. } => (Some(version), waited),
            WriteOutcome::Written { version, .. } => (Some(version), waited),
        };
        let version = if deleted || error.is_some() {
            None
        } else {
            version
        };
        WriteResponse { version: version, current_epoch: epoch, error: error }
    }
}

/// Answers a write that is not taken for what it asks. No topology was looked at.
pub fn refuse_write(error: OperationError) -> (r: WriteResponse)
    ensures
        r@ == failed_write(error@, 0),
{
    WriteResponse { version: None, current_epoch: 0, error: Some(error) }
}

/// Answers a read that is not taken for what it asks. No topology was looked at.
pub fn refuse_read(error: OperationError) -> (r: GetResponse)
    ensures
        r@ == failed_read(error@, 0),
{
    let value: Vec<u8> = Vec::new();
    proof {
        assert(value@ =~= Seq::empty());
    }
    GetResponse { value: value, version: None, current_epoch: 0, error: Some(error) }
}

/// A write is answered with an error or it was applied, never both: an answer without an
/// error is that of a write that was applied and whose acknowledgements are in.
pub proof fn law_answers_without_error_are_of_applied_writes(
    outcome: OutcomeView,
    waited: Option<OperationErrorView>,
    deleted: bool,
    epoch: u64,
)
    ensures
        ({
            let answer = outcome.answered(waited, deleted, epoch);
            &&& answer.error is None <==> outcome !is Refused && waited is None
            &&& answer.version is Some <==> answer.error is None && !deleted
            &&& answer.current_epoch == epoch
        }),
{
}

} // verus!
