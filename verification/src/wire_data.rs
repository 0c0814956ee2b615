//! How long writes and their answers are when sent.
use crate::errors::{ErrorCode, OperationError, OperationErrorView};
use crate::limits::{
    DEFAULT_MAX_KEY_BYTES, DEFAULT_MAX_VALUE_BYTES, MAX_DATA_MESSAGE_BYTES, MAX_MUTATION_ID_BYTES,
};
use crate::node::default_limits;
use crate::node_streams::{EntryView, ReplicationEntry};
use crate::node_write::{mutation_fault, GetResponse, GetResponseView, Mutation, MutationView};
use crate::records::{RecordVersion, VersionView};
use crate::text::byte_count;
use crate::topology::MAX_NODE_ID_BYTES;
use crate::wire_size::{
    block_len, block_size, flag_len, flag_size, lemma_number_bound, lemma_text_bound,
    lemma_varint_bound, number_len, number_size, text_size, text_size_of,
};
use vstd::prelude::*;

verus! {

/// The length of a field that holds so many bytes.
pub open spec fn bytes_size(len: nat) -> nat {
    if len == 0 {
        0
    } else {
        block_size(len)
    }
}

pub open spec fn version_size(version: VersionView) -> nat {
    number_size(version.topology_epoch as nat) + number_size(version.owner_sequence as nat)
        + text_size(version.owner_node_id)
}

pub open spec fn optional_version_size(version: Option<VersionView>) -> nat {
    match version {
        Some(version) => block_size(version_size(version)),
        None => 0,
    }
}

pub open spec fn code_size(code: ErrorCode) -> nat {
    if code is Unspecified {
        0
    } else {
        2
    }
}

pub open spec fn error_size(error: OperationErrorView) -> nat {
    code_size(error.code) + text_size(error.message) + number_size(error.current_epoch as nat)
        + text_size(error.owner_endpoint) + flag_size(error.retryable) + flag_size(
        error.unknown_write_outcome,
    ) + number_size(error.retry_after_millis as nat)
}

/// The length of a request to write under an epoch. A delete has no value.
pub open spec fn write_size(m: MutationView, epoch: u64) -> nat {
    bytes_size(m.key.len()) + bytes_size(m.value.len()) + number_size(epoch as nat) + text_size(
        m.request_id,
    )
}

/// The length of a write on its way to a follower.
pub open spec fn entry_size(e: EntryView) -> nat {
    number_size(e.topology_epoch as nat) + text_size(e.owner_node_id) + number_size(
        e.stream_sequence as nat,
    ) + bytes_size(e.key.len()) + bytes_size(e.value.len()) + flag_size(e.deleted)
        + optional_version_size(e.version) + text_size(e.mutation_id)
}

/// The length of the answer to a read.
pub open spec fn answer_size(r: GetResponseView) -> nat {
    bytes_size(r.value.len()) + optional_version_size(r.version) + number_size(
        r.current_epoch as nat,
    ) + match r.error {
        Some(error) => block_size(error_size(error)),
        None => 0,
    }
}

fn bytes_len(bytes: &Vec<u8>) -> (r: u64)
    requires
        bytes_size(bytes@.len()) <= u64::MAX,
    ensures
        r == bytes_size(bytes@.len()),
{
    if bytes.len() == 0 {
        0
    } else {
        block_len(bytes.len() as u64)
    }
}

fn version_len(version: &Option<RecordVersion>) -> (r: u64)
    requires
        optional_version_size(crate::views::opt(*version)) <= u64::MAX,
    ensures
        r == optional_version_size(crate::views::opt(*version)),
{
    match version {
        Some(version) => {
            let inner = number_len(version.topology_epoch) + number_len(version.owner_sequence)
                + text_size_of(&version.owner_node_id);
            block_len(inner)
        },
        None => 0,
    }
}

fn error_len(error: &OperationError) -> (r: u64)
    requires
        error_size(error@) <= u64::MAX,
    ensures
        r == error_size(error@),
{
    let code: u64 = if error.code == ErrorCode::Unspecified {
        0
    } else {
        2
    };
    code + text_size_of(&error.message) + number_len(error.current_epoch) + text_size_of(
        &error.owner_endpoint,
    ) + flag_len(error.retryable) + flag_len(error.unknown_write_outcome) + number_len(
        error.retry_after_millis,
    )
}

impl Mutation {
    /// The length of this write as a request under an epoch.
    pub fn encoded_len(&self, topology_epoch: u64) -> (r: u64)
        requires
            write_size(self@, topology_epoch) <= u64::MAX,
        ensures
            r == write_size(self@, topology_epoch),
    {
        bytes_len(&self.key) + bytes_len(&self.value) + number_len(topology_epoch) + text_size_of(
            &self.request_id,
        )
    }
}

impl ReplicationEntry {
    /// The length of this write on its way to a follower.
    pub fn encoded_len(&self) -> (r: u64)
        requires
            entry_size(self@) <= u64::MAX,
        ensures
            r == entry_size(self@),
    {
        number_len(self.topology_epoch) + text_size_of(&self.owner_node_id) + number_len(
            self.stream_sequence,
        ) + bytes_len(&self.key) + bytes_len(&self.value) + flag_len(self.deleted) + version_len(
            &self.version,
        ) + text_size_of(&self.mutation_id)
    }
}

impl GetResponse {
    /// The length of this answer.
    pub fn encoded_len(&self) -> (r: u64)
        requires
            answer_size(self@) <= u64::MAX,
        ensures
            r == answer_size(self@),
    {
        let error = match &self.error {
            Some(error) => block_len(error_len(error)),
            None => 0,
        };
        bytes_len(&self.value) + version_len(&self.version) + number_len(self.current_epoch) + error
    }
}

proof fn lemma_bytes_bound(len: nat, bound: nat)
    requires
        len <= bound,
        bound < 0x1_0000_0000,
    ensures
        bytes_size(len) <= bound + 6,
{
    lemma_varint_bound(len);
}

/// A version names a member.
pub open spec fn version_fits(version: Option<VersionView>) -> bool {
    version matches Some(v) ==> byte_count(v.owner_node_id) <= MAX_NODE_ID_BYTES
}

proof fn lemma_version_bound(version: Option<VersionView>)
    requires
        version_fits(version),
    ensures
        optional_version_size(version) <= MAX_NODE_ID_BYTES + 40,
{
    if let Some(v) = version {
        lemma_number_bound(v.topology_epoch as nat);
        lemma_number_bound(v.owner_sequence as nat);
        lemma_text_bound(v.owner_node_id, MAX_NODE_ID_BYTES as nat);
        lemma_varint_bound(version_size(v));
    }
}

/// Every write that a node with the usual limits takes fits into a data message: there is room
/// for the longest key and the longest value, and for what is sent with them.
pub proof fn law_writes_fit_data_messages(m: MutationView, epoch: u64)
    requires
        mutation_fault(default_limits(), m) is None,
    ensures
        write_size(m, epoch) <= MAX_DATA_MESSAGE_BYTES,
{
    lemma_bytes_bound(m.key.len(), DEFAULT_MAX_KEY_BYTES as nat);
    lemma_bytes_bound(m.value.len(), DEFAULT_MAX_VALUE_BYTES as nat);
    lemma_number_bound(epoch as nat);
    lemma_text_bound(m.request_id, MAX_MUTATION_ID_BYTES as nat);
}

/// So does every such write on its way from a member to its followers.
pub proof fn law_replicated_writes_fit_data_messages(e: EntryView)
    requires
        e.key.len() <= DEFAULT_MAX_KEY_BYTES,
        e.value.len() <= DEFAULT_MAX_VALUE_BYTES,
        byte_count(e.mutation_id) <= MAX_MUTATION_ID_BYTES,
        byte_count(e.owner_node_id) <= MAX_NODE_ID_BYTES,
        version_fits(e.version),
    ensures
        entry_size(e) <= MAX_DATA_MESSAGE_BYTES,
{
    lemma_bytes_bound(e.key.len(), DEFAULT_MAX_KEY_BYTES as nat);
    lemma_bytes_bound(e.value.len(), DEFAULT_MAX_VALUE_BYTES as nat);
    lemma_number_bound(e.topology_epoch as nat);
    lemma_number_bound(e.stream_sequence as nat);
    lemma_text_bound(e.owner_node_id, MAX_NODE_ID_BYTES as nat);
    lemma_text_bound(e.mutation_id, MAX_MUTATION_ID_BYTES as nat);
    lemma_version_bound(e.version);
}

/// The answer with the longest value fits into a data message too.
pub proof fn law_values_fit_data_messages(r: GetResponseView)
    requires
        r.value.len() <= DEFAULT_MAX_VALUE_BYTES,
        version_fits(r.version),
        r.error is None,
    ensures
        answer_size(r) <= MAX_DATA_MESSAGE_BYTES,
{
    lemma_bytes_bound(r.value.len(), DEFAULT_MAX_VALUE_BYTES as nat);
    lemma_version_bound(r.version);
    lemma_number_bound(r.current_epoch as nat);
}

} // verus!
