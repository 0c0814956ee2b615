//! Changes from one topology to the next, and what they move.
use crate::bytes::{be64, framed, put_be64, put_framed_text, put_text};
use crate::hashing::{blake3_hex, blake3_hex_of};
use crate::ring::{
    boundaries, lemma_boundaries, lemma_replicas, previous_boundary, refines, strictly_ascending,
    tokens_sorted, AssignmentView,
};
use crate::text::{
    around_number, copy_texts, decimal_text, joined, owned, same_text, signed_decimal, signed_text,
    strs, strs_have, texts,
};
use crate::topology::{
    build, construction_error, first_member, member_views, same_members, topology_error_text,
    Member, MemberView, SnapshotView, TopologyConfig, TopologyError, TopologySnapshot,
    WriteAckPolicy,
};
use crate::topology_laws::{among, law_built_topologies_are_sound, lemma_members_ok};
use crate::views::{duplicate_all, duplicate_opt, opt, views, Duplicate};
use vstd::prelude::*;
use vstd::utf8::encode_utf8;

verus! {

pub const MAX_MIGRATION_RANGES: usize = 16_384;

pub const MAX_REPLICA_OBLIGATIONS: usize = 16_384;

/// How far a topology change has come.
#[derive(Clone, Copy, Debug, Eq, PartialEq, Structural)]
pub enum MigrationPhase {
    Planned,
    Resetting,
    CopyingSnapshot,
    ReplayingChangelog,
    PausingWrites,
    Verifying,
    ReadyToPublish,
    Published,
    CleaningUp,
    Complete,
    Aborting,
    Aborted,
}

impl MigrationPhase {
    /// Whether nothing more happens in this phase.
    pub open spec fn terminal(self) -> bool {
        self == MigrationPhase::Complete || self == MigrationPhase::Aborted
    }

    pub fn is_terminal(self) -> (r: bool)
        ensures
            r == self.terminal(),
    {
        matches!(self, MigrationPhase::Complete | MigrationPhase::Aborted)
    }
}

/// One interval that changes owner.
#[derive(Debug, Eq, PartialEq)]
pub struct RangeMigration {
    pub range_id: String,
    /// Hash interval `(start_exclusive, end_inclusive]`, wrapping at `u64::MAX`.
    pub start_exclusive: u64,
    pub end_inclusive: u64,
    pub source_node_id: String,
    pub destination_node_id: String,
    pub source_endpoint: String,
    pub destination_endpoint: String,
    pub source_process_instance_id: String,
    pub destination_process_instance_id: String,
    pub source_cleaned: bool,
    pub snapshot_records: u64,
    pub changelog_watermark: u64,
    pub verified: bool,
}

#[verifier::ext_equal]
pub struct MoveView {
    pub range_id: Seq<char>,
    pub start_exclusive: u64,
    pub end_inclusive: u64,
    pub source_node_id: Seq<char>,
    pub destination_node_id: Seq<char>,
    pub source_endpoint: Seq<char>,
    pub destination_endpoint: Seq<char>,
    pub source_process_instance_id: Seq<char>,
    pub destination_process_instance_id: Seq<char>,
    pub source_cleaned: bool,
    pub snapshot_records: u64,
    pub changelog_watermark: u64,
    pub verified: bool,
}

impl View for RangeMigration {
    type V = MoveView;

    open spec fn view(&self) -> MoveView {
        MoveView {
            range_id: self.range_id@,
            start_exclusive: self.start_exclusive,
            end_inclusive: self.end_inclusive,
            source_node_id: self.source_node_id@,
            destination_node_id: self.destination_node_id@,
            source_endpoint: self.source_endpoint@,
            destination_endpoint: self.destination_endpoint@,
            source_process_instance_id: self.source_process_instance_id@,
            destination_process_instance_id: self.destination_process_instance_id@,
            source_cleaned: self.source_cleaned,
            snapshot_records: self.snapshot_records,
            changelog_watermark: self.changelog_watermark,
            verified: self.verified,
        }
    }
}

impl Clone for RangeMigration {
    fn clone(&self) -> (r: Self)
        ensures
            r == *self,
    {
        RangeMigration {
            range_id: self.range_id.clone(),
            start_exclusive: self.start_exclusive,
            end_inclusive: self.end_inclusive,
            source_node_id: self.source_node_id.clone(),
            destination_node_id: self.destination_node_id.clone(),
            source_endpoint: self.source_endpoint.clone(),
            destination_endpoint: self.destination_endpoint.clone(),
            source_process_instance_id: self.source_process_instance_id.clone(),
            destination_process_instance_id: self.destination_process_instance_id.clone(),
            source_cleaned: self.source_cleaned,
            snapshot_records: self.snapshot_records,
            changelog_watermark: self.changelog_watermark,
            verified: self.verified,
        }
    }
}

impl Duplicate for RangeMigration {
    fn duplicate(&self) -> (r: Self) {
        self.clone()
    }
}

/// One interval that a node has to hold from now on as a follower.
#[derive(Debug, Eq, PartialEq)]
pub struct ReplicaObligation {
    /// Hash interval `(start_exclusive, end_inclusive]`, wrapping at `u64::MAX`.
    pub start_exclusive: u64,
    pub end_inclusive: u64,
    pub source_node_id: String,
    pub destination_node_id: String,
}

#[verifier::ext_equal]
pub struct ObligationView {
    pub start_exclusive: u64,
    pub end_inclusive: u64,
    pub source_node_id: Seq<char>,
    pub destination_node_id: Seq<char>,
}

impl View for ReplicaObligation {
    type V = ObligationView;

    open spec fn view(&self) -> ObligationView {
        ObligationView {
            start_exclusive: self.start_exclusive,
            end_inclusive: self.end_inclusive,
            source_node_id: self.source_node_id@,
            destination_node_id: self.destination_node_id@,
        }
    }
}

impl Clone for ReplicaObligation {
    fn clone(&self) -> (r: Self)
        ensures
            r == *self,
    {
        ReplicaObligation {
            start_exclusive: self.start_exclusive,
            end_inclusive: self.end_inclusive,
            source_node_id: self.source_node_id.clone(),
            destination_node_id: self.destination_node_id.clone(),
        }
    }
}

impl Duplicate for ReplicaObligation {
    fn duplicate(&self) -> (r: Self) {
        self.clone()
    }
}

/// A change of topology under way.
#[derive(Debug, Eq, PartialEq)]
pub struct TopologyChange {
    pub change_id: String,
    pub base_epoch: u64,
    /// The topology that the change starts from.
    pub base_topology: Option<TopologySnapshot>,
    /// The published change that this one takes back.
    pub supersedes_change_id: Option<String>,
    pub target_topology: TopologySnapshot,
    pub phase: MigrationPhase,
    pub ranges: Vec<RangeMigration>,
    pub replica_obligations: Vec<ReplicaObligation>,
    pub stopped_node_ids: Vec<String>,
    pub stopping_node_ids: Vec<String>,
    pub stop_prepared_node_ids: Vec<String>,
    /// The node whose failure the change answers.
    pub failed_node_id: Option<String>,
    /// Whether every member may take leases in the target epoch.
    pub activation_ready: bool,
    /// Whether successors take ranges over from their own copies, without a migration.
    pub direct_merge: bool,
}

#[verifier::ext_equal]
pub struct ChangeView {
    pub change_id: Seq<char>,
    pub base_epoch: u64,
    pub base_topology: Option<SnapshotView>,
    pub supersedes_change_id: Option<Seq<char>>,
    pub target_topology: SnapshotView,
    pub phase: MigrationPhase,
    pub ranges: Seq<MoveView>,
    pub replica_obligations: Seq<ObligationView>,
    pub stopped_node_ids: Seq<Seq<char>>,
    pub stopping_node_ids: Seq<Seq<char>>,
    pub stop_prepared_node_ids: Seq<Seq<char>>,
    pub failed_node_id: Option<Seq<char>>,
    pub activation_ready: bool,
    pub direct_merge: bool,
}

impl View for TopologyChange {
    type V = ChangeView;

    open spec fn view(&self) -> ChangeView {
        ChangeView {
            change_id: self.change_id@,
            base_epoch: self.base_epoch,
            base_topology: opt(self.base_topology),
            supersedes_change_id: opt(self.supersedes_change_id),
            target_topology: self.target_topology@,
            phase: self.phase,
            ranges: views(self.ranges@),
            replica_obligations: views(self.replica_obligations@),
            stopped_node_ids: texts(self.stopped_node_ids@),
            stopping_node_ids: texts(self.stopping_node_ids@),
            stop_prepared_node_ids: texts(self.stop_prepared_node_ids@),
            failed_node_id: opt(self.failed_node_id),
            activation_ready: self.activation_ready,
            direct_merge: self.direct_merge,
        }
    }
}

impl Clone for TopologyChange {
    fn clone(&self) -> (r: Self)
        ensures
            r@ == self@,
    {
        TopologyChange {
            change_id: self.change_id.clone(),
            base_epoch: self.base_epoch,
            base_topology: duplicate_opt(&self.base_topology),
            supersedes_change_id: duplicate_opt(&self.supersedes_change_id),
            target_topology: self.target_topology.clone(),
            phase: self.phase,
            ranges: duplicate_all(&self.ranges),
            replica_obligations: duplicate_all(&self.replica_obligations),
            stopped_node_ids: copy_texts(&self.stopped_node_ids),
            stopping_node_ids: copy_texts(&self.stopping_node_ids),
            stop_prepared_node_ids: copy_texts(&self.stop_prepared_node_ids),
            failed_node_id: duplicate_opt(&self.failed_node_id),
            activation_ready: self.activation_ready,
            direct_merge: self.direct_merge,
        }
    }
}

impl Duplicate for TopologyChange {
    fn duplicate(&self) -> (r: Self) {
        self.clone()
    }
}

/// Why a change is refused.
#[derive(Debug, Eq, PartialEq)]
pub enum MigrationError {
    Topology(TopologyError),
    NoMembershipChange,
    EndpointChangeUnsupported(String),
    EpochOverflow,
    TooManyRanges,
    TooManyReplicaObligations,
    MissingTargetTopology,
    UnknownPhase(i32),
}

/// What a refusal says.
pub open spec fn migration_error_text(e: MigrationError) -> Seq<char> {
    match e {
        MigrationError::Topology(e) => "invalid target topology: "@ + topology_error_text(e),
        MigrationError::NoMembershipChange =>
            "target membership is identical to committed membership"@,
        MigrationError::EndpointChangeUnsupported(id) => "changing the endpoint of existing node "@
            + id@ + " is not supported for in-memory nodes"@,
        MigrationError::EpochOverflow => "topology epoch overflow"@,
        MigrationError::TooManyRanges => "topology change exceeds the "@ + decimal_text(16_384)
            + " moving-range limit"@,
        MigrationError::TooManyReplicaObligations => "topology change exceeds the "@
            + decimal_text(16_384) + " new-follower obligation limit"@,
        MigrationError::MissingTargetTopology => "migration payload omitted target topology"@,
        MigrationError::UnknownPhase(value) => "unknown migration phase: "@ + signed_text(
            value as int,
        ),
    }
}

impl MigrationError {
    /// What the refusal says.
    pub fn message(&self) -> (r: String)
        ensures
            r@ == migration_error_text(*self),
    {
        match self {
            MigrationError::Topology(e) => {
                let inner = e.message();
                joined("invalid target topology: ", inner.as_str())
            },
            MigrationError::NoMembershipChange => owned(
                "target membership is identical to committed membership",
            ),
            MigrationError::EndpointChangeUnsupported(id) => {
                let start = joined("changing the endpoint of existing node ", id.as_str());
                joined(start.as_str(), " is not supported for in-memory nodes")
            },
            MigrationError::EpochOverflow => owned("topology epoch overflow"),
            MigrationError::TooManyRanges => around_number(
                "topology change exceeds the ",
                16_384,
                " moving-range limit",
            ),
            MigrationError::TooManyReplicaObligations => around_number(
                "topology change exceeds the ",
                16_384,
                " new-follower obligation limit",
            ),
            MigrationError::MissingTargetTopology => owned(
                "migration payload omitted target topology",
            ),
            MigrationError::UnknownPhase(value) => {
                let number = signed_decimal(*value);
                joined("unknown migration phase: ", number.as_str())
            },
        }
    }
}

/// What is hashed to name a moving interval.
pub open spec fn range_id_bytes(
    start: u64,
    end: u64,
    source: Seq<char>,
    destination: Seq<char>,
) -> Seq<u8> {
    encode_utf8("hashring-rs:range:v1\0"@) + be64(start) + be64(end) + framed(encode_utf8(source))
        + framed(encode_utf8(destination))
}

/// The name of a moving interval.
pub fn range_id(start: u64, end: u64, source: &str, destination: &str) -> (r: String)
    ensures
        r@ == blake3_hex(range_id_bytes(start, end, source@, destination@)),
{
    let mut bytes: Vec<u8> = Vec::new();
    put_text(&mut bytes, "hashring-rs:range:v1\0");
    put_be64(&mut bytes, start);
    put_be64(&mut bytes, end);
    put_framed_text(&mut bytes, source);
    put_framed_text(&mut bytes, destination);
    proof {
        assert(bytes@ =~= range_id_bytes(start, end, source@, destination@));
    }
    blake3_hex_of(bytes.as_slice())
}

/// The tokens of both topologies, in ascending order, each once.
pub open spec fn cuts_both(b: Seq<u64>, c: Seq<AssignmentView>, t: Seq<AssignmentView>) -> bool {
    &&& strictly_ascending(b)
    &&& refines(b, c)
    &&& refines(b, t)
    &&& forall|i: int|
        0 <= i < b.len() ==> holds_token(c, #[trigger] b[i]) || holds_token(t, b[i])
}

/// Whether some assignment has this token.
pub open spec fn holds_token(a: Seq<AssignmentView>, token: u64) -> bool {
    exists|k: int| 0 <= k < a.len() && (#[trigger] a[k]).token == token
}

/// The tokens of both topologies, in ascending order, each once.
pub open spec fn cuts(c: Seq<AssignmentView>, t: Seq<AssignmentView>) -> Seq<u64> {
    choose|b: Seq<u64>| cuts_both(b, c, t)
}

proof fn lemma_cuts_within(
    b: Seq<u64>,
    d: Seq<u64>,
    c: Seq<AssignmentView>,
    t: Seq<AssignmentView>,
    i: int,
)
    requires
        cuts_both(b, c, t),
        cuts_both(d, c, t),
        0 <= i < b.len(),
    ensures
        d.contains(b[i]),
{
    if holds_token(c, b[i]) {
        let k = choose|k: int| 0 <= k < c.len() && (#[trigger] c[k]).token == b[i];
        assert(d.contains(c[k].token));
    } else {
        let k = choose|k: int| 0 <= k < t.len() && (#[trigger] t[k]).token == b[i];
        assert(d.contains(t[k].token));
    }
}

/// Two ascending lists of the same tokens agree.
proof fn lemma_cuts_agree(
    b: Seq<u64>,
    d: Seq<u64>,
    c: Seq<AssignmentView>,
    t: Seq<AssignmentView>,
    n: int,
)
    requires
        cuts_both(b, c, t),
        cuts_both(d, c, t),
        0 <= n <= b.len(),
    ensures
        n <= d.len(),
        forall|i: int| 0 <= i < n ==> b[i] == d[i],
    decreases n,
{
    if n > 0 {
        lemma_cuts_agree(b, d, c, t, n - 1);
        lemma_cuts_within(b, d, c, t, n - 1);
        let p = choose|p: int| 0 <= p < d.len() && d[p] == b[n - 1];
        if p < n - 1 {
            assert(b[p] < b[n - 1]);
        }
        assert(n - 1 <= p);
        if p > n - 1 {
            assert(d[n - 1] < d[p]);
            lemma_cuts_within(d, b, c, t, n - 1);
            let q = choose|q: int| 0 <= q < b.len() && b[q] == d[n - 1];
            if q < n - 1 {
                assert(d[q] < d[n - 1]);
            } else if q > n - 1 {
                assert(b[n - 1] < b[q]);
            }
            assert(false);
        }
    }
}

pub proof fn lemma_cuts_unique(b: Seq<u64>, c: Seq<AssignmentView>, t: Seq<AssignmentView>)
    requires
        cuts_both(b, c, t),
    ensures
        cuts(c, t) == b,
{
    let d = cuts(c, t);
    assert(cuts_both(d, c, t));
    lemma_cuts_agree(b, d, c, t, b.len() as int);
    lemma_cuts_agree(d, b, c, t, d.len() as int);
    assert(b =~= d);
}

/// Merges two ascending lists, each token once.
fn merge_tokens(a: &Vec<u64>, b: &Vec<u64>) -> (r: Vec<u64>)
    requires
        strictly_ascending(a@),
        strictly_ascending(b@),
    ensures
        strictly_ascending(r@),
        forall|i: int| 0 <= i < a@.len() ==> r@.contains(#[trigger] a@[i]),
        forall|i: int| 0 <= i < b@.len() ==> r@.contains(#[trigger] b@[i]),
        forall|i: int| 0 <= i < r@.len() ==> a@.contains(#[trigger] r@[i]) || b@.contains(r@[i]),
{
    let mut r: Vec<u64> = Vec::new();
    let mut i: usize = 0;
    let mut j: usize = 0;
    while i < a.len() || j < b.len()
        invariant
            i <= a@.len(),
            j <= b@.len(),
            strictly_ascending(a@),
            strictly_ascending(b@),
            strictly_ascending(r@),
            forall|k: int| 0 <= k < i ==> r@.contains(#[trigger] a@[k]),
            forall|k: int| 0 <= k < j ==> r@.contains(#[trigger] b@[k]),
            forall|k: int| 0 <= k < r@.len() ==> a@.contains(#[trigger] r@[k]) || b@.contains(r@[k]),
            forall|k: int, l: int|
                0 <= k < r@.len() && i <= l < a@.len() ==> #[trigger] r@[k] < #[trigger] a@[l],
            forall|k: int, l: int|
                0 <= k < r@.len() && j <= l < b@.len() ==> #[trigger] r@[k] < #[trigger] b@[l],
        decreases a.len() - i + (b.len() - j),
    {
        let take_left = i < a.len() && (j == b.len() || a[i] <= b[j]);
        let take_right = j < b.len() && (i == a.len() || b[j] <= a[i]);
        let next = if take_left {
            a[i]
        } else {
            b[j]
        };
        let ghost before = r@;
        proof {
            if take_left {
                assert(a@.contains(a@[i as int]));
                assert(next == a@[i as int]);
            } else {
                assert(b@.contains(b@[j as int]));
            }
            if take_right {
                assert(next == b@[j as int]);
            }
            assert forall|l: int| i <= l < a@.len() && (l > i || !take_left) implies next
                < #[trigger] a@[l] by {
                if l > i {
                    assert(a@[i as int] < a@[l]);
                }
            }
            assert forall|l: int| j <= l < b@.len() && (l > j || !take_right) implies next
                < #[trigger] b@[l] by {
                if l > j {
                    assert(b@[j as int] < b@[l]);
                }
            }
        }
        r.push(next);
        proof {
            assert(r@[before.len() as int] == next);
            assert forall|x: u64| before.contains(x) implies r@.contains(x) by {
                let p = choose|p: int| 0 <= p < before.len() && before[p] == x;
                assert(r@[p] == x);
            }
            assert forall|k: int| 0 <= k < i implies r@.contains(#[trigger] a@[k]) by {
                assert(before.contains(a@[k]));
            }
            assert forall|k: int| 0 <= k < j implies r@.contains(#[trigger] b@[k]) by {
                assert(before.contains(b@[k]));
            }
        }
        if take_left {
            i = i + 1;
        }
        if take_right {
            j = j + 1;
        }
    }
    r
}

/// The tokens of both topologies, in ascending order, each once.
fn cut_tokens(committed: &TopologySnapshot, target: &TopologySnapshot) -> (r: Vec<u64>)
    requires
        tokens_sorted(committed@.assignments),
        tokens_sorted(target@.assignments),
    ensures
        r@ == cuts(committed@.assignments, target@.assignments),
        cuts_both(r@, committed@.assignments, target@.assignments),
{
    let a = committed.boundaries();
    let b = target.boundaries();
    let ghost c = committed@.assignments;
    let ghost t = target@.assignments;
    proof {
        lemma_boundaries(c, c.len());
        lemma_boundaries(t, t.len());
    }
    let r = merge_tokens(&a, &b);
    proof {
        assert forall|k: int| 0 <= k < c.len() implies r@.contains((#[trigger] c[k]).token) by {
            assert(a@.contains(c[k].token));
            let p = choose|p: int| 0 <= p < a@.len() && a@[p] == c[k].token;
            assert(r@.contains(a@[p]));
        }
        assert forall|k: int| 0 <= k < t.len() implies r@.contains((#[trigger] t[k]).token) by {
            assert(b@.contains(t[k].token));
            let p = choose|p: int| 0 <= p < b@.len() && b@[p] == t[k].token;
            assert(r@.contains(b@[p]));
        }
        assert forall|i: int| 0 <= i < r@.len() implies holds_token(c, #[trigger] r@[i])
            || holds_token(t, r@[i]) by {
            if a@.contains(r@[i]) {
                let p = choose|p: int| 0 <= p < a@.len() && a@[p] == r@[i];
                assert(boundaries(c, c.len())[p] == r@[i]);
            } else {
                assert(b@.contains(r@[i]));
                let p = choose|p: int| 0 <= p < b@.len() && b@[p] == r@[i];
                assert(boundaries(t, t.len())[p] == r@[i]);
            }
        }
        lemma_cuts_unique(r@, c, t);
    }
    r
}

/// Why the comparison of two topologies stops.
pub enum DeltaFault {
    TooManyRanges,
    TooManyObligations,
    UnknownOwner(Seq<char>),
}

/// What a comparison gives: the intervals that change owner and those that gain a follower.
pub enum Delta {
    Known(Seq<MoveView>, Seq<ObligationView>),
    Stopped(DeltaFault),
}

/// The interval that ends at cut `i`, as one that changes owner.
pub open spec fn move_at(c: SnapshotView, t: SnapshotView, b: Seq<u64>, i: int) -> MoveView {
    let start = previous_boundary(b, i);
    let source = c.owner_id(b[i]);
    let destination = t.owner_id(b[i]);
    MoveView {
        range_id: blake3_hex(range_id_bytes(start, b[i], source, destination)),
        start_exclusive: start,
        end_inclusive: b[i],
        source_node_id: source,
        destination_node_id: destination,
        source_endpoint: c.members[first_member(c.members, source)].endpoint,
        destination_endpoint: t.members[first_member(t.members, destination)].endpoint,
        source_process_instance_id: Seq::empty(),
        destination_process_instance_id: Seq::empty(),
        source_cleaned: false,
        snapshot_records: 0,
        changelog_watermark: 0,
        verified: false,
    }
}

/// The interval that ends at cut `i`, as one that `node` gains.
pub open spec fn obligation_at(c: SnapshotView, b: Seq<u64>, i: int, node: Seq<char>) -> ObligationView {
    ObligationView {
        start_exclusive: previous_boundary(b, i),
        end_inclusive: b[i],
        source_node_id: c.owner_id(b[i]),
        destination_node_id: node,
    }
}

/// What the first `k` replicas of the target add at cut `i` to the obligations so far.
pub open spec fn obligations_at(
    c: SnapshotView,
    t: SnapshotView,
    b: Seq<u64>,
    i: int,
    k: nat,
    so_far: Seq<ObligationView>,
) -> Seq<ObligationView>
    decreases k,
{
    if k <= 1 {
        so_far
    } else {
        let before = obligations_at(c, t, b, i, (k - 1) as nat, so_far);
        let node = t.replicas(b[i])[k - 1];
        if c.replicas(b[i]).contains(node) {
            before
        } else {
            before.push(obligation_at(c, b, i, node))
        }
    }
}

/// What the first `n` intervals contribute.
#[verifier::opaque]
pub open spec fn delta(c: SnapshotView, t: SnapshotView, b: Seq<u64>, n: nat) -> Delta
    decreases n,
{
    if n == 0 {
        Delta::Known(Seq::empty(), Seq::empty())
    } else {
        match delta(c, t, b, (n - 1) as nat) {
            Delta::Stopped(f) => Delta::Stopped(f),
            Delta::Known(moves, duties) => {
                let i = n - 1;
                let changed = c.owner_id(b[i]) != t.owner_id(b[i]);
                let all = obligations_at(c, t, b, i, t.replicas(b[i]).len(), duties);
                if changed && moves.len() == MAX_MIGRATION_RANGES {
                    Delta::Stopped(DeltaFault::TooManyRanges)
                } else if changed && !c.is_member(c.owner_id(b[i])) {
                    Delta::Stopped(DeltaFault::UnknownOwner(c.owner_id(b[i])))
                } else if changed && !t.is_member(t.owner_id(b[i])) {
                    Delta::Stopped(DeltaFault::UnknownOwner(t.owner_id(b[i])))
                } else if all.len() > MAX_REPLICA_OBLIGATIONS {
                    Delta::Stopped(DeltaFault::TooManyObligations)
                } else {
                    Delta::Known(
                        if changed {
                            moves.push(move_at(c, t, b, i))
                        } else {
                            moves
                        },
                        all,
                    )
                }
            },
        }
    }
}

/// The comparison of two topologies.
pub open spec fn full_delta(c: SnapshotView, t: SnapshotView) -> Delta {
    delta(c, t, cuts(c.assignments, t.assignments), cuts(c.assignments, t.assignments).len())
}

proof fn lemma_delta_stops(c: SnapshotView, t: SnapshotView, b: Seq<u64>, k: nat, n: nat)
    requires
        k <= n,
        delta(c, t, b, k) is Stopped,
    ensures
        delta(c, t, b, n) == delta(c, t, b, k),
    decreases n,
{
    reveal_with_fuel(delta, 2);
    if k < n {
        lemma_delta_stops(c, t, b, k, (n - 1) as nat);
    }
}

proof fn lemma_obligations_grow(
    c: SnapshotView,
    t: SnapshotView,
    b: Seq<u64>,
    i: int,
    k: nat,
    n: nat,
    so_far: Seq<ObligationView>,
)
    requires
        k <= n,
    ensures
        obligations_at(c, t, b, i, k, so_far).len() <= obligations_at(c, t, b, i, n, so_far).len(),
    decreases n,
{
    if k < n {
        lemma_obligations_grow(c, t, b, i, k, (n - 1) as nat, so_far);
    }
}

/// A refusal that an unknown owner causes.
pub open spec fn is_unknown_owner(e: MigrationError, id: Seq<char>) -> bool {
    e matches MigrationError::Topology(TopologyError::UnknownAssignedNode(n)) && n@ == id
}

/// The result of comparing two topologies.
pub open spec fn is_delta(
    d: Delta,
    r: Result<(Vec<RangeMigration>, Vec<ReplicaObligation>), MigrationError>,
) -> bool {
    match d {
        Delta::Known(moves, duties) => r is Ok && views(r->Ok_0.0@) == moves && views(r->Ok_0.1@)
            == duties,
        Delta::Stopped(DeltaFault::TooManyRanges) => r is Err && r->Err_0
            == MigrationError::TooManyRanges,
        Delta::Stopped(DeltaFault::TooManyObligations) => r is Err && r->Err_0
            == MigrationError::TooManyReplicaObligations,
        Delta::Stopped(DeltaFault::UnknownOwner(id)) => r is Err && is_unknown_owner(
            r->Err_0,
            id,
        ),
    }
}

/// Adds what the interval that ends at `end` gains.
fn add_obligations(
    committed: &TopologySnapshot,
    target: &TopologySnapshot,
    ends: &Vec<u64>,
    i: usize,
    start: u64,
    committed_replicas: &Vec<&str>,
    target_replicas: &Vec<&str>,
    duties: &mut Vec<ReplicaObligation>,
) -> (r: Result<(), MigrationError>)
    requires
        committed@.placeable(),
        target@.placeable(),
        i < ends@.len(),
        start == previous_boundary(ends@, i as int),
        strs(committed_replicas@) == committed@.replicas(ends@[i as int]),
        strs(target_replicas@) == target@.replicas(ends@[i as int]),
        committed_replicas@.len() > 0,
        target_replicas@.len() > 0,
        committed@.replicas(ends@[i as int])[0] == committed@.owner_id(ends@[i as int]),
        old(duties)@.len() <= MAX_REPLICA_OBLIGATIONS,
    ensures
        ({
            let all = obligations_at(
                committed@,
                target@,
                ends@,
                i as int,
                target_replicas@.len(),
                views(old(duties)@),
            );
            if all.len() > MAX_REPLICA_OBLIGATIONS {
                r == Err::<(), MigrationError>(MigrationError::TooManyReplicaObligations)
            } else {
                r is Ok && views(final(duties)@) == all
            }
        }),
{
    let end = ends[i];
    let ghost first = views(duties@);
    let mut k: usize = 1;
    while k < target_replicas.len()
        invariant
            1 <= k <= target_replicas@.len(),
            first == views(old(duties)@),
            i < ends@.len(),
            end == ends@[i as int],
            start == previous_boundary(ends@, i as int),
            strs(committed_replicas@) == committed@.replicas(end),
            strs(target_replicas@) == target@.replicas(end),
            committed_replicas@.len() > 0,
            committed@.replicas(end)[0] == committed@.owner_id(end),
            views(duties@) == obligations_at(
                committed@,
                target@,
                ends@,
                i as int,
                k as nat,
                first,
            ),
            duties@.len() <= MAX_REPLICA_OBLIGATIONS,
        decreases target_replicas.len() - k,
    {
        let node = target_replicas[k];
        proof {
            assert(strs(target_replicas@)[k as int] == node@);
            assert(views(duties@).len() == duties@.len());
        }
        if !strs_have(committed_replicas, node) {
            if duties.len() == MAX_REPLICA_OBLIGATIONS {
                proof {
                    lemma_obligations_grow(
                        committed@,
                        target@,
                        ends@,
                        i as int,
                        (k + 1) as nat,
                        target_replicas@.len(),
                        first,
                    );
                }
                return Err(MigrationError::TooManyReplicaObligations);
            }
            let obligation = ReplicaObligation {
                start_exclusive: start,
                end_inclusive: end,
                source_node_id: committed_replicas[0].to_owned(),
                destination_node_id: node.to_owned(),
            };
            proof {
                assert(strs(committed_replicas@)[0] == committed_replicas@[0]@);
                assert(obligation@ =~= obligation_at(committed@, ends@, i as int, node@));
                crate::views::lemma_views_push(duties@, obligation);
            }
            duties.push(obligation);
        }
        k = k + 1;
    }
    proof {
        assert(views(duties@).len() == duties@.len());
    }
    Ok(())
}

/// Compares two topologies: the intervals that change owner, and those that a node has to
/// hold from now on as a follower.
#[verifier::rlimit(30)]
pub fn topology_delta(committed: &TopologySnapshot, target: &TopologySnapshot) -> (r: Result<
    (Vec<RangeMigration>, Vec<ReplicaObligation>),
    MigrationError,
>)
    requires
        tokens_sorted(committed@.assignments),
        tokens_sorted(target@.assignments),
        committed@.assignments.len() == 0 <==> target@.assignments.len() == 0,
    ensures
        committed@.assignments.len() == 0 ==> r is Err && r->Err_0 == MigrationError::Topology(
            TopologyError::NoAssignments,
        ),
        committed@.assignments.len() > 0 ==> is_delta(full_delta(committed@, target@), r),
{
    let ends = cut_tokens(committed, target);
    let ghost c = committed@;
    let ghost t = target@;
    if ends.len() == 0 {
        proof {
            if c.assignments.len() > 0 {
                assert(ends@.contains(c.assignments[0].token));
            }
        }
        return Err(MigrationError::Topology(TopologyError::NoAssignments));
    }
    proof {
        if c.assignments.len() == 0 {
            assert(holds_token(c.assignments, ends@[0]) || holds_token(t.assignments, ends@[0]));
        }
    }
    let mut previous = ends[ends.len() - 1];
    let mut ranges: Vec<RangeMigration> = Vec::new();
    let mut duties: Vec<ReplicaObligation> = Vec::new();
    let mut i: usize = 0;
    proof {
        reveal_with_fuel(delta, 2);
        assert(views(ranges@) =~= Seq::empty());
        assert(views(duties@) =~= Seq::empty());
    }
    while i < ends.len()
        invariant
            c == committed@,
            t == target@,
            c.placeable(),
            t.placeable(),
            ends@ == cuts(c.assignments, t.assignments),
            ends@.len() > 0,
            i <= ends@.len(),
            i < ends@.len() ==> previous == previous_boundary(ends@, i as int),
            delta(c, t, ends@, i as nat) == Delta::Known(views(ranges@), views(duties@)),
            duties@.len() <= MAX_REPLICA_OBLIGATIONS,
        decreases ends.len() - i,
    {
        let end = ends[i];
        proof {
            reveal_with_fuel(delta, 2);
            lemma_replicas(
                c.assignments,
                c.desired_replication_factor,
                c.members.len(),
                end,
            );
            lemma_replicas(
                t.assignments,
                t.desired_replication_factor,
                t.members.len(),
                end,
            );
        }
        let committed_replicas = match committed.replica_node_ids_for_token(end) {
            Ok(replicas) => replicas,
            Err(e) => return Err(MigrationError::Topology(e)),
        };
        let target_replicas = match target.replica_node_ids_for_token(end) {
            Ok(replicas) => replicas,
            Err(e) => return Err(MigrationError::Topology(e)),
        };
        proof {
            assert(strs(committed_replicas@)[0] == committed_replicas@[0]@);
            assert(strs(target_replicas@)[0] == target_replicas@[0]@);
            assert(strs(target_replicas@).len() == target_replicas@.len());
            assert(views(ranges@).len() == ranges@.len());
            assert(views(duties@).len() == duties@.len());
        }
        let ghost moves_before = views(ranges@);
        if !same_text(committed_replicas[0], target_replicas[0]) {
            proof {
                if delta(c, t, ends@, (i + 1) as nat) is Stopped {
                    lemma_delta_stops(c, t, ends@, (i + 1) as nat, ends@.len());
                }
            }
            if ranges.len() == MAX_MIGRATION_RANGES {
                return Err(MigrationError::TooManyRanges);
            }
            let source = match committed.owner_for_token(end) {
                Ok(member) => member,
                Err(e) => return Err(MigrationError::Topology(e)),
            };
            let destination = match target.owner_for_token(end) {
                Ok(member) => member,
                Err(e) => return Err(MigrationError::Topology(e)),
            };
            let range = RangeMigration {
                range_id: range_id(previous, end, committed_replicas[0], target_replicas[0]),
                start_exclusive: previous,
                end_inclusive: end,
                source_node_id: source.node_id.clone(),
                destination_node_id: destination.node_id.clone(),
                source_endpoint: source.endpoint.clone(),
                destination_endpoint: destination.endpoint.clone(),
                source_process_instance_id: String::new(),
                destination_process_instance_id: String::new(),
                source_cleaned: false,
                snapshot_records: 0,
                changelog_watermark: 0,
                verified: false,
            };
            proof {
                lemma_member_bounds(c, c.owner_id(end));
                lemma_member_bounds(t, t.owner_id(end));
                assert(range@ =~= move_at(c, t, ends@, i as int));
                crate::views::lemma_views_push(ranges@, range);
            }
            ranges.push(range);
        }
        match add_obligations(
            committed,
            target,
            &ends,
            i,
            previous,
            &committed_replicas,
            &target_replicas,
            &mut duties,
        ) {
            Ok(()) => {},
            Err(e) => {
                proof {
                    assert(delta(c, t, ends@, (i + 1) as nat) == Delta::Stopped(
                        DeltaFault::TooManyObligations,
                    ));
                    lemma_delta_stops(c, t, ends@, (i + 1) as nat, ends@.len());
                }
                return Err(e);
            },
        }
        proof {
            assert(views(duties@).len() == duties@.len());
        }
        previous = end;
        i = i + 1;
    }
    Ok((ranges, duties))
}

pub proof fn lemma_member_bounds(s: SnapshotView, id: Seq<char>)
    requires
        s.is_member(id),
    ensures
        0 <= first_member(s.members, id) < s.members.len(),
        s.members[first_member(s.members, id)].node_id == id,
{
    let i = choose|i: int| 0 <= i < s.members.len() && (#[trigger] s.members[i]).node_id == id;
    lemma_least_member(s.members, id, i);
}

proof fn lemma_least_member(members: Seq<MemberView>, id: Seq<char>, i: int)
    requires
        0 <= i < members.len(),
        members[i].node_id == id,
    ensures
        exists|k: int|
            0 <= k < members.len() && (#[trigger] members[k]).node_id == id && forall|j: int|
                0 <= j < k ==> (#[trigger] members[j]).node_id != id,
    decreases i,
{
    if exists|j: int| 0 <= j < i && (#[trigger] members[j]).node_id == id {
        let j = choose|j: int| 0 <= j < i && (#[trigger] members[j]).node_id == id;
        lemma_least_member(members, id, j);
    } else {
        assert(members[i].node_id == id);
    }
}

/// The intervals that change owner between two topologies.
pub fn moving_ranges(committed: &TopologySnapshot, target: &TopologySnapshot) -> (r: Result<
    Vec<RangeMigration>,
    MigrationError,
>)
    requires
        tokens_sorted(committed@.assignments),
        tokens_sorted(target@.assignments),
        committed@.assignments.len() == 0 <==> target@.assignments.len() == 0,
    ensures
        committed@.assignments.len() == 0 ==> r is Err && r->Err_0 == MigrationError::Topology(
            TopologyError::NoAssignments,
        ),
        committed@.assignments.len() > 0 ==> match full_delta(committed@, target@) {
            Delta::Known(moves, duties) => r is Ok && views(r->Ok_0@) == moves,
            Delta::Stopped(DeltaFault::TooManyRanges) => r is Err && r->Err_0
                == MigrationError::TooManyRanges,
            Delta::Stopped(DeltaFault::TooManyObligations) => r is Err && r->Err_0
                == MigrationError::TooManyReplicaObligations,
            Delta::Stopped(DeltaFault::UnknownOwner(id)) => r is Err && is_unknown_owner(
                r->Err_0,
                id,
            ),
        },
{
    match topology_delta(committed, target) {
        Ok((ranges, _)) => Ok(ranges),
        Err(e) => Err(e),
    }
}

/// The first of the first `n` committed members that the target gives another endpoint.
pub open spec fn endpoint_conflict(
    committed: Seq<MemberView>,
    target: Seq<MemberView>,
    n: nat,
) -> Option<Seq<char>>
    decreases n,
{
    if n == 0 {
        None
    } else {
        match endpoint_conflict(committed, target, (n - 1) as nat) {
            Some(id) => Some(id),
            None => {
                let m = committed[n - 1];
                if among(target, m.node_id) && target[first_member(target, m.node_id)].endpoint
                    != m.endpoint {
                    Some(m.node_id)
                } else {
                    None
                }
            },
        }
    }
}

/// A change that has just been planned.
pub open spec fn planned(
    change_id: Seq<char>,
    committed: SnapshotView,
    target: SnapshotView,
    moves: Seq<MoveView>,
    duties: Seq<ObligationView>,
) -> ChangeView {
    ChangeView {
        change_id: change_id,
        base_epoch: committed.epoch,
        base_topology: Some(committed),
        supersedes_change_id: None,
        target_topology: target,
        phase: MigrationPhase::Planned,
        ranges: moves,
        replica_obligations: duties,
        stopped_node_ids: Seq::empty(),
        stopping_node_ids: Seq::empty(),
        stop_prepared_node_ids: Seq::empty(),
        failed_node_id: None,
        activation_ready: false,
        direct_merge: false,
    }
}

/// The topology that a change aims at.
pub open spec fn plan_target(
    committed: SnapshotView,
    members: Seq<MemberView>,
    config: TopologyConfig,
) -> SnapshotView {
    build(
        (committed.epoch + 1) as u64,
        committed.hash_seed,
        committed.virtual_nodes,
        members,
        config,
    )
}

/// The result of planning a change under some name.
pub open spec fn is_plan(
    committed: SnapshotView,
    members: Seq<Member>,
    config: TopologyConfig,
    r: Result<TopologyChange, MigrationError>,
) -> bool {
    let conflict = endpoint_conflict(
        committed.members,
        member_views(members),
        committed.members.len(),
    );
    let refused = construction_error(members, committed.virtual_nodes, config);
    let target = plan_target(committed, member_views(members), config);
    if conflict is Some {
        r is Err && (r->Err_0 matches MigrationError::EndpointChangeUnsupported(id) && id@
            == conflict->0)
    } else if committed.epoch == u64::MAX {
        r is Err && r->Err_0 == MigrationError::EpochOverflow
    } else if refused is Some {
        r is Err && r->Err_0 == MigrationError::Topology(refused->0)
    } else if target.members == committed.members && config == committed.config() {
        r is Err && r->Err_0 == MigrationError::NoMembershipChange
    } else {
        match full_delta(committed, target) {
            Delta::Known(moves, duties) => r is Ok && r->Ok_0@ == planned(
                r->Ok_0.change_id@,
                committed,
                target,
                moves,
                duties,
            ),
            Delta::Stopped(DeltaFault::TooManyRanges) => r is Err && r->Err_0
                == MigrationError::TooManyRanges,
            Delta::Stopped(DeltaFault::TooManyObligations) => r is Err && r->Err_0
                == MigrationError::TooManyReplicaObligations,
            Delta::Stopped(DeltaFault::UnknownOwner(id)) => r is Err && is_unknown_owner(
                r->Err_0,
                id,
            ),
        }
    }
}

/// `uuid::Uuid::new_v4` and its text form: a random identifier of thirty-six characters.
#[verifier::external_body]
pub(crate) fn random_id() -> (id: String)
    ensures
        id@.len() == 36,
{
    uuid::Uuid::new_v4().to_string()
}

proof fn lemma_conflict_stays(committed: Seq<MemberView>, target: Seq<MemberView>, k: nat, n: nat)
    requires
        k <= n,
        endpoint_conflict(committed, target, k) is Some,
    ensures
        endpoint_conflict(committed, target, n) == endpoint_conflict(committed, target, k),
    decreases n,
{
    if k < n {
        lemma_conflict_stays(committed, target, k, (n - 1) as nat);
    }
}

/// Finds a committed member to which the target gives another endpoint.
fn find_endpoint_conflict(committed: &Vec<Member>, target: &Vec<Member>) -> (r: Option<String>)
    ensures
        opt(r) == endpoint_conflict(
            member_views(committed@),
            member_views(target@),
            committed@.len(),
        ),
{
    let ghost c = member_views(committed@);
    let ghost t = member_views(target@);
    let mut i: usize = 0;
    while i < committed.len()
        invariant
            i <= committed@.len(),
            c == member_views(committed@),
            t == member_views(target@),
            endpoint_conflict(c, t, i as nat) is None,
        decreases committed.len() - i,
    {
        let current = &committed[i];
        let mut j: usize = 0;
        let mut found = false;
        while j < target.len() && !found
            invariant
                i < committed@.len(),
                j <= target@.len(),
                t == member_views(target@),
                c == member_views(committed@),
                *current == committed@[i as int],
                forall|k: int| 0 <= k < j ==> (#[trigger] t[k]).node_id != current.node_id@,
                found ==> j < target@.len() && t[j as int].node_id == current.node_id@,
            decreases target.len() - j, if found { 0int } else { 1int },
        {
            proof {
                assert(t[j as int] == target@[j as int]@);
            }
            if same_text(target[j].node_id.as_str(), current.node_id.as_str()) {
                found = true;
            } else {
                j = j + 1;
            }
        }
        proof {
            assert(c[i as int] == current@);
            if found {
                assert(t[j as int].node_id == current.node_id@);
                crate::topology::lemma_first_member(t, current.node_id@, j as int);
            }
        }
        if found && !same_text(target[j].endpoint.as_str(), current.endpoint.as_str()) {
            proof {
                assert(among(t, current.node_id@));
                lemma_conflict_stays(c, t, (i + 1) as nat, c.len());
            }
            return Some(current.node_id.clone());
        }
        i = i + 1;
    }
    None
}

impl TopologyChange {
    /// Plans a change of membership that keeps the replication settings.
    pub fn plan(committed: &TopologySnapshot, target_members: Vec<Member>) -> (r: Result<
        Self,
        MigrationError,
    >)
        requires
            committed@.placeable(),
        ensures
            is_plan(committed@, target_members@, committed@.config(), r),
            r matches Ok(change) ==> change.change_id@.len() == 36,
            r matches Ok(change) ==> change@.target_topology.placeable()
                && change@.target_topology.desired_replication_factor >= 1,
    {
        let config = committed.config();
        Self::plan_with_config(committed, target_members, config)
    }

    /// Plans a change of membership and acknowledgement policy.
    pub fn plan_with_policy(
        committed: &TopologySnapshot,
        target_members: Vec<Member>,
        policy: WriteAckPolicy,
    ) -> (r: Result<Self, MigrationError>)
        requires
            committed@.placeable(),
        ensures
            is_plan(
                committed@,
                target_members@,
                (TopologyConfig { write_ack_policy: policy, ..committed@.config() }),
                r,
            ),
            r matches Ok(change) ==> change.change_id@.len() == 36,
            r matches Ok(change) ==> change@.target_topology.placeable()
                && change@.target_topology.desired_replication_factor >= 1,
    {
        let mut config = committed.config();
        config.write_ack_policy = policy;
        Self::plan_with_config(committed, target_members, config)
    }

    /// Plans a change of membership and replication settings under a fresh name.
    pub fn plan_with_config(
        committed: &TopologySnapshot,
        target_members: Vec<Member>,
        config: TopologyConfig,
    ) -> (r: Result<Self, MigrationError>)
        requires
            committed@.placeable(),
        ensures
            is_plan(committed@, target_members@, config, r),
            r matches Ok(change) ==> change.change_id@.len() == 36,
            r matches Ok(change) ==> change@.target_topology.placeable()
                && change@.target_topology.desired_replication_factor >= 1,
    {
        Self::plan_as(committed, target_members, config, random_id())
    }

    /// Plans a change of membership and replication settings under a given name.
    pub fn plan_as(
        committed: &TopologySnapshot,
        target_members: Vec<Member>,
        config: TopologyConfig,
        change_id: String,
    ) -> (r: Result<Self, MigrationError>)
        requires
            committed@.placeable(),
        ensures
            is_plan(committed@, target_members@, config, r),
            r matches Ok(change) ==> change.change_id@ == change_id@,
            r matches Ok(change) ==> change@.target_topology.placeable()
                && change@.target_topology.desired_replication_factor >= 1,
    {
        if let Some(id) = find_endpoint_conflict(&committed.members, &target_members) {
            return Err(MigrationError::EndpointChangeUnsupported(id));
        }
        if committed.epoch == u64::MAX {
            return Err(MigrationError::EpochOverflow);
        }
        let ghost named = target_members@;
        let target = match TopologySnapshot::new_with_config(
            committed.epoch + 1,
            committed.hash_seed,
            committed.virtual_nodes,
            target_members,
            config,
        ) {
            Ok(target) => target,
            Err(e) => return Err(MigrationError::Topology(e)),
        };
        proof {
            lemma_members_ok(named, committed.virtual_nodes);
            law_built_topologies_are_sound(
                target.epoch,
                target.hash_seed,
                target.virtual_nodes,
                member_views(named),
                config,
            );
        }
        let current = committed.config();
        if same_members(&target.members, &committed.members) && config == current {
            return Err(MigrationError::NoMembershipChange);
        }
        match topology_delta(committed, &target) {
            Ok((ranges, duties)) => {
                let change = TopologyChange {
                    change_id: change_id,
                    base_epoch: committed.epoch,
                    base_topology: Some(committed.clone()),
                    supersedes_change_id: None,
                    target_topology: target,
                    phase: MigrationPhase::Planned,
                    ranges: ranges,
                    replica_obligations: duties,
                    stopped_node_ids: Vec::new(),
                    stopping_node_ids: Vec::new(),
                    stop_prepared_node_ids: Vec::new(),
                    failed_node_id: None,
                    activation_ready: false,
                    direct_merge: false,
                };
                proof {
                    assert(change@ =~= planned(
                        change_id@,
                        committed@,
                        target@,
                        views(ranges@),
                        views(duties@),
                    ));
                }
                Ok(change)
            },
            Err(e) => Err(e),
        }
    }
}

} // verus!
