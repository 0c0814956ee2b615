//! Reads and writes of a key by its owner.
use crate::errors::{
    backpressure, epoch_error, error_at, operation_error, plain_error, ErrorCode, OperationError,
    OperationErrorView,
};
use crate::limits::MAX_MUTATION_ID_BYTES;
use crate::node::{DataNode, NodeLimits, NodeView, SourceMigration, MAX_PENDING_REPLICATION_BYTES};
use crate::node_receipts::spent;
use crate::order::same_bytes;
use crate::ordmap::{entry_index, lemma_entry, lemma_total_prefix, total};
use crate::receipts::{
    acks_cost, mutation_fingerprint, mutation_print, receipt_cost, AckView, ReceiptView,
    RequiredAck,
};
use crate::records::{copy_bytes, RecordVersion, VersionView};
use crate::text::{around_number, byte_count, decimal_text, text_len};
use crate::views::{duplicate_all, opt, views};
use vstd::prelude::*;

verus! {

/// A put or a delete, as a client asks for it.
#[derive(Debug, Eq, PartialEq)]
pub struct Mutation {
    pub key: Vec<u8>,
    /// Empty in a delete.
    pub value: Vec<u8>,
    pub deleted: bool,
    pub request_id: String,
}

#[verifier::ext_equal]
pub struct MutationView {
    pub key: Seq<u8>,
    pub value: Seq<u8>,
    pub deleted: bool,
    pub request_id: Seq<char>,
}

impl View for Mutation {
    type V = MutationView;

    open spec fn view(&self) -> MutationView {
        MutationView {
            key: self.key@,
            value: self.value@,
            deleted: self.deleted,
            request_id: self.request_id@,
        }
    }
}

/// What is wrong with a key, if anything.
pub open spec fn key_fault(limits: NodeLimits, key: Seq<u8>) -> Option<OperationErrorView> {
    if key.len() == 0 {
        Some(plain_error(ErrorCode::InvalidArgument, "key must not be empty"@, false))
    } else if key.len() > limits.max_key_bytes {
        Some(
            plain_error(
                ErrorCode::TooLarge,
                "key exceeds "@ + decimal_text(limits.max_key_bytes as nat) + " bytes"@,
                false,
            ),
        )
    } else {
        None
    }
}

/// What is wrong with a write by itself, if anything.
pub open spec fn mutation_fault(limits: NodeLimits, m: MutationView) -> Option<OperationErrorView> {
    if key_fault(limits, m.key) is Some {
        key_fault(limits, m.key)
    } else if m.request_id.len() == 0 || byte_count(m.request_id) > MAX_MUTATION_ID_BYTES {
        Some(
            plain_error(
                ErrorCode::InvalidArgument,
                "mutation id must contain 1 to "@ + decimal_text(128) + " bytes"@,
                false,
            ),
        )
    } else if m.value.len() > limits.max_value_bytes {
        Some(
            plain_error(
                ErrorCode::TooLarge,
                "value exceeds "@ + decimal_text(limits.max_value_bytes as nat) + " bytes"@,
                false,
            ),
        )
    } else {
        None
    }
}

/// Checks a key by itself.
pub fn validate_key(limits: &NodeLimits, key: &[u8]) -> (r: Option<OperationError>)
    ensures
        opt(r) == key_fault(*limits, key@),
{
    if key.len() == 0 {
        return Some(operation_error(ErrorCode::InvalidArgument, "key must not be empty", false));
    }
    if key.len() > limits.max_key_bytes {
        let message = around_number("key exceeds ", limits.max_key_bytes as u64, " bytes");
        return Some(operation_error(ErrorCode::TooLarge, message.as_str(), false));
    }
    None
}

/// Checks a write by itself.
pub fn validate_mutation(limits: &NodeLimits, m: &Mutation) -> (r: Option<OperationError>)
    ensures
        opt(r) == mutation_fault(*limits, m@),
{
    if let Some(error) = validate_key(limits, m.key.as_slice()) {
        return Some(error);
    }
    if m.request_id.as_str().is_empty() || text_len(m.request_id.as_str())
        > MAX_MUTATION_ID_BYTES {
        let message = around_number("mutation id must contain 1 to ", 128, " bytes");
        return Some(operation_error(ErrorCode::InvalidArgument, message.as_str(), false));
    }
    if m.value.len() > limits.max_value_bytes {
        let message = around_number("value exceeds ", limits.max_value_bytes as u64, " bytes");
        return Some(operation_error(ErrorCode::TooLarge, message.as_str(), false));
    }
    None
}

/// The answer to a read.
#[derive(Debug, Eq, PartialEq)]
pub struct GetResponse {
    pub value: Vec<u8>,
    pub version: Option<RecordVersion>,
    pub current_epoch: u64,
    pub error: Option<OperationError>,
}

#[verifier::ext_equal]
pub struct GetResponseView {
    pub value: Seq<u8>,
    pub version: Option<VersionView>,
    pub current_epoch: u64,
    pub error: Option<OperationErrorView>,
}

impl View for GetResponse {
    type V = GetResponseView;

    open spec fn view(&self) -> GetResponseView {
        GetResponseView {
            value: self.value@,
            version: opt(self.version),
            current_epoch: self.current_epoch,
            error: opt(self.error),
        }
    }
}

/// A read that fails.
pub open spec fn failed_read(error: OperationErrorView, epoch: u64) -> GetResponseView {
    GetResponseView { value: Seq::empty(), version: None, current_epoch: epoch, error: Some(error) }
}

impl NodeView {
    /// The answer to a read of `key`.
    pub open spec fn read(self, key: Seq<u8>, now: u64) -> GetResponseView {
        if key_fault(self.limits, key) is Some {
            failed_read(key_fault(self.limits, key)->0, 0)
        } else if self.owner_fault(key, now) is Some {
            failed_read(self.owner_fault(key, now)->0, self.epoch())
        } else if !self.records.contains_key(key) || self.records[key].deleted {
            failed_read(
                epoch_error(self.epoch(), ErrorCode::NotFound, "key not found"@, false),
                self.epoch(),
            )
        } else {
            GetResponseView {
                value: self.records[key].value,
                version: Some(self.records[key].version),
                current_epoch: self.epoch(),
                error: None,
            }
        }
    }
}

/// What the table of receipts says of a write.
pub enum Recall {
    Unknown,
    Conflict,
    Known(VersionView, Seq<AckView>),
}

/// What receipts say of a write: nothing, that its name was used for another, or what it
/// was answered.
pub open spec fn recall(receipts: Map<Seq<char>, ReceiptView>, m: MutationView) -> Recall {
    if !receipts.contains_key(m.request_id) {
        Recall::Unknown
    } else {
        let r = receipts[m.request_id];
        if r.fingerprint == mutation_print(m.key, m.value, m.deleted) && r.deleted == m.deleted {
            Recall::Known(r.version, r.required_acks)
        } else {
            Recall::Conflict
        }
    }
}

pub open spec fn conflict_error() -> OperationErrorView {
    plain_error(
        ErrorCode::MutationIdConflict,
        "mutation ID was reused with a different operation or payload"@,
        false,
    )
}

fn mutation_id_conflict() -> (r: OperationError)
    ensures
        r@ == conflict_error(),
{
    operation_error(
        ErrorCode::MutationIdConflict,
        "mutation ID was reused with a different operation or payload",
        false,
    )
}

/// What happens to a write.
#[derive(Debug)]
pub enum WriteDecision {
    /// It fails with this error.
    Refused(OperationError),
    /// It was applied before: it is answered with the first version as soon as the first
    /// acknowledgements are in.
    Retry { version: RecordVersion, required_acks: Vec<RequiredAck> },
    /// It goes on.
    Proceed,
}

pub enum DecisionView {
    Refused(OperationErrorView),
    Retry(VersionView, Seq<AckView>),
    Proceed,
}

impl View for WriteDecision {
    type V = DecisionView;

    open spec fn view(&self) -> DecisionView {
        match self {
            WriteDecision::Refused(e) => DecisionView::Refused(e@),
            WriteDecision::Retry { version, required_acks } => DecisionView::Retry(
                version@,
                views(required_acks@),
            ),
            WriteDecision::Proceed => DecisionView::Proceed,
        }
    }
}

pub open spec fn fence_error(epoch: u64) -> OperationErrorView {
    epoch_error(
        epoch,
        ErrorCode::RangeBusy,
        "writes are fenced for ACK-policy transition"@,
        true,
    )
}

pub open spec fn cutover_error(epoch: u64) -> OperationErrorView {
    epoch_error(
        epoch,
        ErrorCode::RangeBusy,
        "range writes are fenced for topology cutover"@,
        true,
    )
}

pub open spec fn journal_error(epoch: u64) -> OperationErrorView {
    epoch_error(
        epoch,
        ErrorCode::ResourceExhausted,
        "node migration journal budget is full; retry with backoff"@,
        true,
    )
}

/// What the journal of one range gains by a write.
pub open spec fn journal_bytes(m: MutationView) -> nat {
    m.key.len() + m.value.len() + byte_count(m.request_id) + 128
}

/// What a write takes in the replication queues.
pub open spec fn replication_bytes(m: MutationView, owner: Seq<char>) -> nat {
    m.key.len() + m.value.len() + byte_count(owner) + byte_count(m.request_id) + 256
}

/// One for each source whose range holds the token.
pub open spec fn covering(token: u64) -> spec_fn(SourceMigration) -> nat {
    |s: SourceMigration|
        if s.range@.covers(token) {
            1
        } else {
            0
        }
}

impl NodeView {
    /// What a receipt of this write costs, with the acknowledgements that it waits for.
    pub open spec fn write_cost(self, m: MutationView, ready: Seq<Seq<char>>) -> nat {
        receipt_cost(m.request_id, m.key.len(), byte_count(self.node_id)) + acks_cost(ready)
    }

    /// The failure of a write whose receipt finds no room.
    pub open spec fn receipts_full(self, now: u64) -> OperationErrorView {
        OperationErrorView {
            retry_after_millis: self.retry_after(now),
            ..epoch_error(
                self.epoch(),
                ErrorCode::ResourceExhausted,
                "owner mutation retry window is full; retry with backoff"@,
                true,
            )
        }
    }

    /// Some source has paused writes at this token.
    pub open spec fn paused_at(self, token: u64) -> bool {
        exists|k: (Seq<char>, Seq<char>)| #[trigger]
            self.sources.contains_key(k) && self.sources[k].writes_paused
                && self.sources[k].range.covers(token)
    }

    /// Some destination does not accept writes at this token yet.
    pub open spec fn inactive_at(self, token: u64) -> bool {
        exists|k: (Seq<char>, Seq<char>)| #[trigger]
            self.destinations.contains_key(k) && !self.destinations[k].writes_activated
                && self.destinations[k].range.covers(token)
    }

    /// What happens to a write before its followers are looked for.
    pub open spec fn first_look(self, m: MutationView, now: u64) -> DecisionView {
        if self.owner_fault(m.key, now) is Some {
            DecisionView::Refused(self.owner_fault(m.key, now)->0)
        } else {
            match recall(self.live_receipts(now), m) {
                Recall::Conflict => DecisionView::Refused(conflict_error()),
                Recall::Known(version, acks) => DecisionView::Retry(version, acks),
                Recall::Unknown => DecisionView::Proceed,
            }
        }
    }

    /// What happens to a write whose followers are known, on a node whose journals would take
    /// `journal`.
    pub open spec fn decide(
        self,
        m: MutationView,
        ready: Seq<Seq<char>>,
        journal: nat,
        now: u64,
    ) -> DecisionView {
        let token = self.token(m.key);
        match recall(self.receipts, m) {
            Recall::Conflict => DecisionView::Refused(conflict_error()),
            Recall::Known(version, acks) => DecisionView::Retry(version, acks),
            Recall::Unknown => if spent(self.receipts) + self.write_cost(m, ready)
                > self.limits.max_dedup_bytes {
                DecisionView::Refused(self.receipts_full(now))
            } else if self.policy_write_fence is Some {
                DecisionView::Refused(fence_error(self.epoch()))
            } else if self.paused_at(token) || self.inactive_at(token) {
                DecisionView::Refused(cutover_error(self.epoch()))
            } else if journal > self.limits.max_journal_bytes {
                DecisionView::Refused(journal_error(self.epoch()))
            } else if replication_bytes(m, self.node_id) > MAX_PENDING_REPLICATION_BYTES {
                DecisionView::Refused(backpressure(self.epoch()))
            } else {
                DecisionView::Proceed
            },
        }
    }
}

impl DataNode {
    /// What the journals would take after a write.
    pub open spec fn journal_after(self, m: MutationView) -> nat {
        self.journal_bytes_total as nat + journal_bytes(m) * total(
            self.sources.sequence(),
            covering(self@.token(m.key)),
        )
    }

    /// Answers a read.
    pub fn get(&self, key: &Vec<u8>, now: u64) -> (r: GetResponse)
        requires
            self.wf(),
        ensures
            r@ == self@.read(key@, now),
    {
        if let Some(error) = validate_key(&self.limits, key.as_slice()) {
            return GetResponse {
                value: Vec::new(),
                version: None,
                current_epoch: 0,
                error: Some(error),
            };
        }
        if let Some(error) = self.owner_error(key.as_slice(), now) {
            return GetResponse {
                value: Vec::new(),
                version: None,
                current_epoch: error.current_epoch,
                error: Some(error),
            };
        }
        match self.records.get(key) {
            Some(record) if !record.deleted => GetResponse {
                value: copy_bytes(record.value.as_slice()),
                version: Some(record.version.clone()),
                current_epoch: self.topology.epoch,
                error: None,
            },
            _ => GetResponse {
                value: Vec::new(),
                version: None,
                current_epoch: self.topology.epoch,
                error: Some(
                    error_at(self.topology.epoch, ErrorCode::NotFound, "key not found", false),
                ),
            },
        }
    }

    /// Looks a write up among the receipts; expired ones count as unknown.
    pub fn recall_write(&self, m: &Mutation, now: Option<u64>) -> (r: Option<WriteDecision>)
        ensures
            ({
                let receipts = match now {
                    Some(t) => self@.live_receipts(t),
                    None => self@.receipts,
                };
                match recall(receipts, m@) {
                    Recall::Unknown => r is None,
                    Recall::Conflict => r is Some && r->0@ == DecisionView::Refused(
                        conflict_error(),
                    ),
                    Recall::Known(version, acks) => r is Some && r->0@ == DecisionView::Retry(
                        version,
                        acks,
                    ),
                }
            }),
    {
        let existing = match self.receipts.entries.get(&m.request_id) {
            Some(existing) => existing,
            None => return None,
        };
        if let Some(t) = now {
            if existing.expires_at <= t {
                return None;
            }
        }
        let fingerprint = mutation_fingerprint(m.key.as_slice(), m.value.as_slice(), m.deleted);
        if existing.deleted == m.deleted && same_bytes(
            existing.fingerprint.as_slice(),
            fingerprint.as_slice(),
        ) {
            Some(
                WriteDecision::Retry {
                    version: existing.version.clone(),
                    required_acks: duplicate_all(&existing.required_acks),
                },
            )
        } else {
            Some(WriteDecision::Refused(mutation_id_conflict()))
        }
    }

    /// What happens to a write before its followers are looked for.
    pub fn look_at_write(&self, m: &Mutation, now: u64) -> (r: WriteDecision)
        requires
            self.wf(),
        ensures
            r@ == self@.first_look(m@, now),
    {
        if let Some(error) = self.owner_error(m.key.as_slice(), now) {
            return WriteDecision::Refused(error);
        }
        match self.recall_write(m, Some(now)) {
            Some(decision) => decision,
            None => WriteDecision::Proceed,
        }
    }

    pub fn source_paused_at(&self, token: u64) -> (r: bool)
        ensures
            r == self@.paused_at(token),
    {
        self.sources.expose();
        let ghost s = self.sources.sequence();
        let mut i: usize = 0;
        while i < self.sources.len()
            invariant
                s == self.sources.sequence(),
                crate::ordmap::unique_entries(s),
                i <= s.len(),
                forall|j: int|
                    0 <= j < i ==> !((#[trigger] s[j]).1.writes_paused && s[j].1.range@.covers(
                        token,
                    )),
            decreases s.len() - i,
        {
            proof {
                lemma_entry(s, i as int);
            }
            let source = self.sources.value_at(i);
            if source.writes_paused && source.range.contains(token) {
                proof {
                    assert(self@.sources.contains_key(s[i as int].0));
                }
                return true;
            }
            i = i + 1;
        }
        proof {
            if self@.paused_at(token) {
                let k = choose|k: (Seq<char>, Seq<char>)| #[trigger]
                    self@.sources.contains_key(k) && self@.sources[k].writes_paused
                        && self@.sources[k].range.covers(token);
                let j = entry_index(s, k);
                lemma_entry(s, j);
            }
        }
        false
    }

    pub fn destination_inactive_at(&self, token: u64) -> (r: bool)
        ensures
            r == self@.inactive_at(token),
    {
        self.destinations.expose();
        let ghost s = self.destinations.sequence();
        let mut i: usize = 0;
        while i < self.destinations.len()
            invariant
                s == self.destinations.sequence(),
                crate::ordmap::unique_entries(s),
                i <= s.len(),
                forall|j: int|
                    0 <= j < i ==> !(!(#[trigger] s[j]).1.writes_activated
                        && s[j].1.range@.covers(token)),
            decreases s.len() - i,
        {
            proof {
                lemma_entry(s, i as int);
            }
            let destination = self.destinations.value_at(i);
            if !destination.writes_activated && destination.range.contains(token) {
                proof {
                    assert(self@.destinations.contains_key(s[i as int].0));
                }
                return true;
            }
            i = i + 1;
        }
        proof {
            if self@.inactive_at(token) {
                let k = choose|k: (Seq<char>, Seq<char>)| #[trigger]
                    self@.destinations.contains_key(k) && !self@.destinations[k].writes_activated
                        && self@.destinations[k].range.covers(token);
                let j = entry_index(s, k);
                lemma_entry(s, j);
            }
        }
        false
    }

    /// The number of sources whose range holds a token.
    pub fn covering_sources(&self, token: u64) -> (r: usize)
        ensures
            r == total(self.sources.sequence(), covering(token)),
    {
        let ghost s = self.sources.sequence();
        let mut count: usize = 0;
        let mut i: usize = 0;
        proof {
            assert(s.subrange(0, 0) =~= Seq::empty());
        }
        while i < self.sources.len()
            invariant
                s == self.sources.sequence(),
                i <= s.len(),
                count <= i,
                count == total(s.subrange(0, i as int), covering(token)),
            decreases s.len() - i,
        {
            proof {
                lemma_total_prefix(s, i as int, covering(token));
            }
            if self.sources.value_at(i).range.contains(token) {
                count = count + 1;
            }
            i = i + 1;
        }
        proof {
            assert(s.subrange(0, s.len() as int) =~= s);
        }
        count
    }
}

} // verus!
