//! State of a data node: its records, its replication streams and the ranges that it
//! hands over or takes over.
use crate::errors::{
    epoch_error, error_at, refusal, Code, ErrorCode, OperationError, OperationErrorView, Status,
};
use crate::interval::interval_contains;
use crate::limits::{DEFAULT_MAX_KEY_BYTES, DEFAULT_MAX_VALUE_BYTES};
use crate::ordmap::{shown, total, MapKey, SortedMap};
use crate::receipts::{staged_sound, ExpiringTable, Receipt, ReceiptView, StagedTable, StagedView};
use crate::records::{JournalRecord, JournalView, RecordMap, RecordView};
use crate::ring::in_interval;
use crate::text::{joined, owned, same_text};
use crate::topology::{first_member, SnapshotView, TopologySnapshot};
use crate::topology_laws::law_every_token_has_a_member_owner;
use crate::views::{opt, views, Duplicate};
use vstd::prelude::*;

verus! {

pub const DEFAULT_MAX_MIGRATION_JOURNAL_BYTES: usize = 16_777_216;

pub const MAX_PENDING_REPLICATION_BYTES: usize = 67_108_864;

pub const MAX_REPLICATION_FINGERPRINTS: u64 = 4_096;

/// A node keeps mutation identifiers for the full retry window, as an owner and as a
/// follower. Live receipts are counted apart from those staged by a migration.
pub const MAX_DEDUP_BYTES: usize = 134_217_728;

/// The largest key, value or node id that sums of sizes are made for.
pub const MAX_PIECE_BYTES: usize = 268_435_456;

/// How much a node accepts.
#[derive(Clone, Copy, Debug, Eq, PartialEq, Structural)]
pub struct NodeLimits {
    pub max_key_bytes: usize,
    pub max_value_bytes: usize,
    pub max_journal_bytes: usize,
    pub max_dedup_bytes: usize,
}

/// The limits of a node that names none.
pub open spec fn default_limits() -> NodeLimits {
    NodeLimits {
        max_key_bytes: DEFAULT_MAX_KEY_BYTES,
        max_value_bytes: DEFAULT_MAX_VALUE_BYTES,
        max_journal_bytes: DEFAULT_MAX_MIGRATION_JOURNAL_BYTES,
        max_dedup_bytes: MAX_DEDUP_BYTES,
    }
}

impl Default for NodeLimits {
    fn default() -> (r: Self)
        ensures
            r == default_limits(),
    {
        NodeLimits {
            max_key_bytes: DEFAULT_MAX_KEY_BYTES,
            max_value_bytes: DEFAULT_MAX_VALUE_BYTES,
            max_journal_bytes: DEFAULT_MAX_MIGRATION_JOURNAL_BYTES,
            max_dedup_bytes: MAX_DEDUP_BYTES,
        }
    }
}

/// A range that moves from one node to another, or is copied to a follower.
#[derive(Debug, Eq, PartialEq)]
pub struct RangeSpec {
    pub change_id: String,
    pub range_id: String,
    pub start_exclusive: u64,
    pub end_inclusive: u64,
    pub source_node_id: String,
    pub destination_node_id: String,
}

#[verifier::ext_equal]
pub struct SpecView {
    pub change_id: Seq<char>,
    pub range_id: Seq<char>,
    pub start_exclusive: u64,
    pub end_inclusive: u64,
    pub source_node_id: Seq<char>,
    pub destination_node_id: Seq<char>,
}

impl SpecView {
    pub open spec fn covers(self, token: u64) -> bool {
        in_interval(self.start_exclusive, self.end_inclusive, token)
    }

    pub open spec fn key(self) -> (Seq<char>, Seq<char>) {
        (self.change_id, self.range_id)
    }

    /// Whether all names are given.
    pub open spec fn named(self) -> bool {
        self.change_id.len() > 0 && self.range_id.len() > 0 && self.source_node_id.len() > 0
            && self.destination_node_id.len() > 0
    }
}

impl View for RangeSpec {
    type V = SpecView;

    open spec fn view(&self) -> SpecView {
        SpecView {
            change_id: self.change_id@,
            range_id: self.range_id@,
            start_exclusive: self.start_exclusive,
            end_inclusive: self.end_inclusive,
            source_node_id: self.source_node_id@,
            destination_node_id: self.destination_node_id@,
        }
    }
}

impl Duplicate for RangeSpec {
    fn duplicate(&self) -> (r: Self) {
        RangeSpec {
            change_id: self.change_id.clone(),
            range_id: self.range_id.clone(),
            start_exclusive: self.start_exclusive,
            end_inclusive: self.end_inclusive,
            source_node_id: self.source_node_id.clone(),
            destination_node_id: self.destination_node_id.clone(),
        }
    }
}

impl RangeSpec {
    pub fn contains(&self, token: u64) -> (r: bool)
        ensures
            r == self@.covers(token),
    {
        interval_contains(self.start_exclusive, self.end_inclusive, token)
    }

    pub fn key(&self) -> (r: (String, String))
        ensures
            r.id() == self@.key(),
    {
        (self.change_id.clone(), self.range_id.clone())
    }

    pub fn same(&self, other: &RangeSpec) -> (r: bool)
        ensures
            r == (self@ == other@),
    {
        same_text(self.change_id.as_str(), other.change_id.as_str()) && same_text(
            self.range_id.as_str(),
            other.range_id.as_str(),
        ) && self.start_exclusive == other.start_exclusive && self.end_inclusive
            == other.end_inclusive && same_text(
            self.source_node_id.as_str(),
            other.source_node_id.as_str(),
        ) && same_text(self.destination_node_id.as_str(), other.destination_node_id.as_str())
    }

    /// Checks that a range that came over the wire is fully named.
    pub fn checked(self) -> (r: Result<RangeSpec, Status>)
        ensures
            r is Ok == self@.named(),
            r matches Ok(range) ==> range@ == self@,
            r matches Err(e) ==> e@ == refusal(
                Code::InvalidArgument,
                "range identifiers and node identifiers must not be empty"@,
            ),
    {
        if self.change_id.as_str().is_empty() || self.range_id.as_str().is_empty()
            || self.source_node_id.as_str().is_empty()
            || self.destination_node_id.as_str().is_empty() {
            return Err(
                Status::new(
                    Code::InvalidArgument,
                    "range identifiers and node identifiers must not be empty",
                ),
            );
        }
        Ok(self)
    }
}

/// A range that a node hands over.
#[derive(Debug)]
pub struct SourceMigration {
    pub range: RangeSpec,
    pub snapshot_keys: Option<Vec<Vec<u8>>>,
    pub snapshot_dedup_ids: Vec<String>,
    pub journal: Vec<JournalRecord>,
    pub journal_bytes: usize,
    pub watermark: u64,
    pub writes_paused: bool,
}

#[verifier::ext_equal]
pub struct SourceView {
    pub range: SpecView,
    pub snapshot_keys: Option<Seq<Seq<u8>>>,
    pub snapshot_dedup_ids: Seq<Seq<char>>,
    pub journal: Seq<JournalView>,
    pub journal_bytes: usize,
    pub watermark: u64,
    pub writes_paused: bool,
}

impl View for SourceMigration {
    type V = SourceView;

    open spec fn view(&self) -> SourceView {
        SourceView {
            range: self.range@,
            snapshot_keys: match self.snapshot_keys {
                Some(keys) => Some(views(keys@)),
                None => None,
            },
            snapshot_dedup_ids: views(self.snapshot_dedup_ids@),
            journal: views(self.journal@),
            journal_bytes: self.journal_bytes,
            watermark: self.watermark,
            writes_paused: self.writes_paused,
        }
    }
}

/// What the journal of a range takes.
pub open spec fn journal_measure() -> spec_fn(SourceMigration) -> nat {
    |s: SourceMigration| s.journal_bytes as nat
}

/// A range that a node takes over.
pub struct DestinationMigration {
    pub range: RangeSpec,
    pub records: RecordMap,
    pub dedup: StagedTable,
    pub watermark: u64,
    pub committed: bool,
    pub writes_activated: bool,
}

#[verifier::ext_equal]
pub struct DestinationView {
    pub range: SpecView,
    pub records: Map<Seq<u8>, RecordView>,
    pub dedup: Map<Seq<char>, StagedView>,
    pub watermark: u64,
    pub committed: bool,
    pub writes_activated: bool,
}

impl View for DestinationMigration {
    type V = DestinationView;

    open spec fn view(&self) -> DestinationView {
        DestinationView {
            range: self.range@,
            records: shown(self.records),
            dedup: shown(self.dedup.entries),
            watermark: self.watermark,
            committed: self.committed,
            writes_activated: self.writes_activated,
        }
    }
}

impl DestinationMigration {
    /// Staged receipts are counted, complete and stand under their own names.
    pub open spec fn wf(self) -> bool {
        self.dedup.wf() && staged_sound(shown(self.dedup.entries))
    }
}

/// How far a follower has come with the writes of one owner.
pub struct FollowerStream {
    pub applied_sequence: u64,
    pub last_owner_sequence: u64,
    pub checkpoint_sequence: u64,
    pub fingerprints: SortedMap<u64, String>,
}

#[verifier::ext_equal]
pub struct StreamView {
    pub applied_sequence: u64,
    pub last_owner_sequence: u64,
    pub checkpoint_sequence: u64,
    pub fingerprints: Map<u64, Seq<char>>,
}

impl View for FollowerStream {
    type V = StreamView;

    open spec fn view(&self) -> StreamView {
        StreamView {
            applied_sequence: self.applied_sequence,
            last_owner_sequence: self.last_owner_sequence,
            checkpoint_sequence: self.checkpoint_sequence,
            fingerprints: shown(self.fingerprints),
        }
    }
}

/// A stream of which nothing was applied.
pub open spec fn fresh_stream() -> StreamView {
    StreamView {
        applied_sequence: 0,
        last_owner_sequence: 0,
        checkpoint_sequence: 0,
        fingerprints: Map::empty(),
    }
}

impl FollowerStream {
    pub fn new() -> (r: Self)
        ensures
            r@ == fresh_stream(),
    {
        let r = FollowerStream {
            applied_sequence: 0,
            last_owner_sequence: 0,
            checkpoint_sequence: 0,
            fingerprints: SortedMap::new(),
        };
        proof {
            assert(r@.fingerprints =~= Map::empty());
        }
        r
    }
}

/// How much work the release of streams has been. It is counted only where it is asked for.
#[derive(Clone, Copy, Debug, Eq, PartialEq, Structural)]
pub struct ReceiptCleanupTiming {
    pub enabled: bool,
    pub ack_prune_calls: u64,
    pub ack_prune_scanned_receipts: u64,
}

/// Nothing is counted.
pub open spec fn no_cleanup() -> ReceiptCleanupTiming {
    ReceiptCleanupTiming { enabled: false, ack_prune_calls: 0, ack_prune_scanned_receipts: 0 }
}

impl ReceiptCleanupTiming {
    pub fn new() -> (r: Self)
        ensures
            r == no_cleanup(),
    {
        ReceiptCleanupTiming { enabled: false, ack_prune_calls: 0, ack_prune_scanned_receipts: 0 }
    }

    /// The counts after one more pass that looked at this many receipts.
    pub open spec fn counted(self, scanned: nat) -> ReceiptCleanupTiming {
        if self.enabled {
            ReceiptCleanupTiming {
                ack_prune_calls: ((self.ack_prune_calls + 1) % 0x1_0000_0000_0000_0000) as u64,
                ack_prune_scanned_receipts: ((self.ack_prune_scanned_receipts + scanned)
                    % 0x1_0000_0000_0000_0000) as u64,
                ..self
            }
        } else {
            self
        }
    }

    /// Counts one more pass that looked at this many receipts.
    pub fn count(&mut self, scanned: usize)
        ensures
            *final(self) == old(self).counted(scanned as nat),
    {
        if self.enabled {
            self.ack_prune_calls = self.ack_prune_calls.wrapping_add(1);
            self.ack_prune_scanned_receipts =
                self.ack_prune_scanned_receipts.wrapping_add(scanned as u64);
        }
    }
}

/// A data node. Instants are nanoseconds on one clock that never goes back.
pub struct DataNode {
    pub node_id: String,
    pub process_instance_id: String,
    pub limits: NodeLimits,
    pub topology: TopologySnapshot,
    pub records: RecordMap,
    pub next_sequence: u64,
    /// Last sequence sent, by epoch and follower.
    pub owner_stream_sequences: SortedMap<(u64, String), u64>,
    /// Sequences sent and not acknowledged, with the time of sending.
    pub owner_stream_unacked: SortedMap<(u64, String), Vec<(u64, u64)>>,
    /// Last sequence acknowledged, by epoch and follower.
    pub ack_progress: SortedMap<(u64, String), u64>,
    /// The process that acknowledged last, by epoch and follower.
    pub ack_process_instances: SortedMap<(u64, String), String>,
    /// The process of each follower that was admitted.
    pub admitted_followers: SortedMap<String, String>,
    /// Streams followed, by epoch and owner.
    pub follower_streams: SortedMap<(u64, String), FollowerStream>,
    pub sources: SortedMap<(String, String), SourceMigration>,
    pub destinations: SortedMap<(String, String), DestinationMigration>,
    pub journal_bytes_total: usize,
    /// Epoch and expiry of the lease.
    pub lease: Option<(u64, u64)>,
    /// Change and epoch that fence all writes.
    pub policy_write_fence: Option<(String, u64)>,
    pub receipts: ExpiringTable<Receipt>,
    pub dedup_peak_bytes: usize,
    pub ack_progress_needs_prune: bool,
    pub next_ack_prune_at: u64,
    pub cleanup_timing: ReceiptCleanupTiming,
    pub owner_dedup_rejections: u64,
    pub follower_dedup_rejections: u64,
    pub stop_prepared: bool,
}

/// What a node holds. Sizes are left out: they are those of what is held. The most that
/// receipts have taken is told apart from it.
#[verifier::ext_equal]
pub struct NodeView {
    pub node_id: Seq<char>,
    pub process_instance_id: Seq<char>,
    pub limits: NodeLimits,
    pub topology: SnapshotView,
    pub records: Map<Seq<u8>, RecordView>,
    pub next_sequence: u64,
    pub owner_stream_sequences: Map<(u64, Seq<char>), u64>,
    pub owner_stream_unacked: Map<(u64, Seq<char>), Seq<(u64, u64)>>,
    pub ack_progress: Map<(u64, Seq<char>), u64>,
    pub ack_process_instances: Map<(u64, Seq<char>), Seq<char>>,
    pub admitted_followers: Map<Seq<char>, Seq<char>>,
    pub follower_streams: Map<(u64, Seq<char>), StreamView>,
    pub sources: Map<(Seq<char>, Seq<char>), SourceView>,
    pub destinations: Map<(Seq<char>, Seq<char>), DestinationView>,
    pub lease: Option<(u64, u64)>,
    pub policy_write_fence: Option<(Seq<char>, u64)>,
    pub receipts: Map<Seq<char>, ReceiptView>,
    pub ack_progress_needs_prune: bool,
    pub next_ack_prune_at: u64,
    pub cleanup_timing: ReceiptCleanupTiming,
    pub owner_dedup_rejections: u64,
    pub follower_dedup_rejections: u64,
    pub stop_prepared: bool,
}

impl View for DataNode {
    type V = NodeView;

    open spec fn view(&self) -> NodeView {
        NodeView {
            node_id: self.node_id@,
            process_instance_id: self.process_instance_id@,
            limits: self.limits,
            topology: self.topology@,
            records: shown(self.records),
            next_sequence: self.next_sequence,
            owner_stream_sequences: shown(self.owner_stream_sequences),
            owner_stream_unacked: shown(self.owner_stream_unacked),
            ack_progress: shown(self.ack_progress),
            ack_process_instances: shown(self.ack_process_instances),
            admitted_followers: shown(self.admitted_followers),
            follower_streams: shown(self.follower_streams),
            sources: shown(self.sources),
            destinations: shown(self.destinations),
            lease: self.lease,
            policy_write_fence: match self.policy_write_fence {
                Some(fence) => Some((fence.0@, fence.1)),
                None => None,
            },
            receipts: shown(self.receipts.entries),
            ack_progress_needs_prune: self.ack_progress_needs_prune,
            next_ack_prune_at: self.next_ack_prune_at,
            cleanup_timing: self.cleanup_timing,
            owner_dedup_rejections: self.owner_dedup_rejections,
            follower_dedup_rejections: self.follower_dedup_rejections,
            stop_prepared: self.stop_prepared,
        }
    }
}

impl DataNode {
    /// The most that receipts have taken is noted: what they take now, if that is more than
    /// ever before.
    pub open spec fn peak_noted(self, before: DataNode) -> bool {
        self.dedup_peak_bytes == if self.receipts.bytes > before.dedup_peak_bytes {
            self.receipts.bytes
        } else {
            before.dedup_peak_bytes
        }
    }

    /// The receipts take no more than they may.
    pub open spec fn receipts_in_room(self) -> bool {
        self.receipts.bytes <= self.limits.max_dedup_bytes
    }
}

impl DataNode {
    /// What every operation keeps: a sound topology, sizes that are those of what is held,
    /// and pieces small enough to add up.
    pub open spec fn wf(self) -> bool {
        &&& self.topology@.sound()
        &&& self.receipts.wf()
        &&& self.journal_bytes_total == total(self.sources.sequence(), journal_measure())
        &&& self.dedup_peak_bytes >= self.receipts.bytes
        &&& forall|id: Seq<char>| #[trigger]
            self@.receipts.contains_key(id) ==> self@.receipts[id].covered()
        &&& forall|k: (Seq<char>, Seq<char>)| #[trigger]
            self.destinations@.contains_key(k) ==> self.destinations@[k].wf()
        &&& self.limits.max_key_bytes <= MAX_PIECE_BYTES
        &&& self.limits.max_value_bytes <= MAX_PIECE_BYTES
        &&& crate::text::byte_count(self.node_id@) <= MAX_PIECE_BYTES
    }
}

impl NodeView {
    /// A lease of the installed epoch that has not run out.
    pub open spec fn leased(self, now: u64) -> bool {
        self.lease matches Some((epoch, expires_at)) && epoch == self.topology.epoch && now
            < expires_at
    }

    pub open spec fn token(self, key: Seq<u8>) -> u64 {
        self.topology.key_token(key)
    }

    pub open spec fn epoch(self) -> u64 {
        self.topology.epoch
    }

    /// Why this node does not serve `key`, if it does not.
    pub open spec fn owner_fault(self, key: Seq<u8>, now: u64) -> Option<OperationErrorView> {
        let owner = self.topology.owner_id(self.token(key));
        if owner == self.node_id {
            if self.leased(now) {
                None
            } else {
                Some(
                    epoch_error(
                        self.epoch(),
                        ErrorCode::LeaseExpired,
                        "owner lease has expired"@,
                        true,
                    ),
                )
            }
        } else {
            Some(
                OperationErrorView {
                    owner_endpoint: self.topology.members[first_member(
                        self.topology.members,
                        owner,
                    )].endpoint,
                    ..epoch_error(
                        self.epoch(),
                        ErrorCode::Moved,
                        "key is owned by "@ + owner,
                        true,
                    )
                },
            )
        }
    }
}

impl DataNode {
    /// A node that holds nothing yet.
    pub fn new(
        node_id: String,
        process_instance_id: String,
        limits: NodeLimits,
        topology: TopologySnapshot,
        now: u64,
    ) -> (r: Self)
        requires
            topology@.sound(),
            limits.max_key_bytes <= MAX_PIECE_BYTES,
            limits.max_value_bytes <= MAX_PIECE_BYTES,
            crate::text::byte_count(node_id@) <= MAX_PIECE_BYTES,
        ensures
            r.wf(),
            r@.node_id == node_id@,
            r@.process_instance_id == process_instance_id@,
            r@.limits == limits,
            r@.topology == topology@,
            r@.records == Map::<Seq<u8>, RecordView>::empty(),
            r@.next_sequence == 0,
            r@.owner_stream_sequences == Map::<(u64, Seq<char>), u64>::empty(),
            r@.owner_stream_unacked == Map::<(u64, Seq<char>), Seq<(u64, u64)>>::empty(),
            r@.ack_progress == Map::<(u64, Seq<char>), u64>::empty(),
            r@.ack_process_instances == Map::<(u64, Seq<char>), Seq<char>>::empty(),
            r@.admitted_followers == Map::<Seq<char>, Seq<char>>::empty(),
            r@.follower_streams == Map::<(u64, Seq<char>), StreamView>::empty(),
            r@.sources == Map::<(Seq<char>, Seq<char>), SourceView>::empty(),
            r@.destinations == Map::<(Seq<char>, Seq<char>), DestinationView>::empty(),
            r@.lease is None,
            r@.policy_write_fence is None,
            r@.receipts == Map::<Seq<char>, ReceiptView>::empty(),
            !r@.ack_progress_needs_prune,
            r@.next_ack_prune_at == now,
            r@.cleanup_timing == no_cleanup(),
            r@.owner_dedup_rejections == 0,
            r@.follower_dedup_rejections == 0,
            !r@.stop_prepared,
    {
        let r = DataNode {
            node_id: node_id,
            process_instance_id: process_instance_id,
            limits: limits,
            topology: topology,
            records: SortedMap::new(),
            next_sequence: 0,
            owner_stream_sequences: SortedMap::new(),
            owner_stream_unacked: SortedMap::new(),
            ack_progress: SortedMap::new(),
            ack_process_instances: SortedMap::new(),
            admitted_followers: SortedMap::new(),
            follower_streams: SortedMap::new(),
            sources: SortedMap::new(),
            destinations: SortedMap::new(),
            journal_bytes_total: 0,
            lease: None,
            policy_write_fence: None,
            receipts: ExpiringTable::new(),
            dedup_peak_bytes: 0,
            ack_progress_needs_prune: false,
            next_ack_prune_at: now,
            cleanup_timing: ReceiptCleanupTiming::new(),
            owner_dedup_rejections: 0,
            follower_dedup_rejections: 0,
            stop_prepared: false,
        };
        proof {
            assert(r@.records =~= Map::empty());
            assert(r@.owner_stream_sequences =~= Map::empty());
            assert(r@.owner_stream_unacked =~= Map::empty());
            assert(r@.ack_progress =~= Map::empty());
            assert(r@.ack_process_instances =~= Map::empty());
            assert(r@.admitted_followers =~= Map::empty());
            assert(r@.follower_streams =~= Map::empty());
            assert(r@.sources =~= Map::empty());
            assert(r@.destinations =~= Map::empty());
            assert(r@.receipts =~= Map::empty());
        }
        r
    }

    /// Why this node does not serve `key`, if it does not.
    pub fn owner_error(&self, key: &[u8], now: u64) -> (r: Option<OperationError>)
        requires
            self.wf(),
        ensures
            opt(r) == self@.owner_fault(key@, now),
    {
        let token = self.topology.key_token(key);
        proof {
            law_every_token_has_a_member_owner(self.topology@, token);
        }
        let owner = match self.topology.owner_for_token(token) {
            Ok(owner) => owner,
            Err(_) => {
                return None;
            },
        };
        if same_text(owner.node_id.as_str(), self.node_id.as_str()) {
            let leased = match self.lease {
                Some((epoch, expires_at)) => epoch == self.topology.epoch && now < expires_at,
                None => false,
            };
            if leased {
                return None;
            }
            return Some(
                error_at(
                    self.topology.epoch,
                    ErrorCode::LeaseExpired,
                    "owner lease has expired",
                    true,
                ),
            );
        }
        let message = joined("key is owned by ", owner.node_id.as_str());
        let mut error = error_at(self.topology.epoch, ErrorCode::Moved, message.as_str(), true);
        error.owner_endpoint = owner.endpoint.clone();
        proof {
            assert(self.topology@.members[first_member(
                self.topology@.members,
                owner.node_id@,
            )] == owner@) by {
                crate::migration::lemma_member_bounds(self.topology@, owner.node_id@);
            }
        }
        Some(error)
    }
}

} // verus!
