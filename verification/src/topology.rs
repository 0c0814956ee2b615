//! Topology snapshots: membership, token assignments and write policy of one epoch.
use crate::bytes::{be32, framed, put_be32, put_framed_text, put_text};
use crate::canonical::{canonical_json, canonical_json_of};
use crate::hashing::{blake3_hex, blake3_hex_of, xxh3_64, xxh3_of};
use crate::limits::MAX_CONTROL_MESSAGE_BYTES;
use crate::order::{
    lemma_lex_asymmetric, lemma_lex_total, lemma_lex_transitive, lex_le, lex_lt, Position,
};
use crate::ordmap::SortedMap;
use crate::ring::{
    boundaries, clockwise, first_at_or_after, leads, lemma_leads_unique, lemma_replicas,
    lemma_some_boundary, lemma_splits_unique, owner_index, range_at, ranges, replica_limit,
    replicas, splits, tokens_sorted, walk, AssignmentView, RangeView,
};
use crate::sorting::{lemma_map_keeps_multiset, pair_order, sort_pairs};
use crate::text::{
    around_number, byte_count, decimal_text, joined, lemma_text_rank_injective, order_text,
    own_from, owned, same_text, signed_decimal, signed_text, strs, strs_have, text_len, text_rank,
    texts,
};
use crate::wire_size::{law_topologies_fit_control_messages, snapshot_size};
use vstd::prelude::*;
use vstd::relations::{sorted_by, total_ordering};
use vstd::seq_lib::lemma_sorted_unique;
use vstd::utf8::encode_utf8;

verus! {

pub const HASH_ALGORITHM: &'static str = "xxh3-64";

pub const ENCODING_VERSION: u32 = 2;

pub const MAX_MEMBERS: usize = 1_024;

pub const MAX_VIRTUAL_NODES: u32 = 4_096;

pub const MAX_TOKEN_ASSIGNMENTS: usize = 1_048_576;

pub const MAX_NODE_ID_BYTES: usize = 32;

pub const MAX_ENDPOINT_BYTES: usize = 256;

pub const DEFAULT_DESIRED_REPLICATION_FACTOR: u32 = 3;

pub const DEFAULT_MINIMUM_ADMITTED_COPIES: u32 = 1;

pub const DEFAULT_MINIMUM_HEALTHY_FOLLOWERS: u32 = 0;

pub const DEFAULT_MAX_REPLICA_LAG_MILLIS: u64 = 5_000;

/// Which copies acknowledge a write before it is confirmed.
#[derive(Clone, Copy, Debug, Default, Eq, PartialEq, Structural)]
pub enum WriteAckPolicy {
    #[default]
    OwnerOnly,
    FirstSuccessor,
    AllReplicas,
}

/// What must hold of a range's copies before it accepts writes.
#[derive(Clone, Copy, Debug, Eq, PartialEq, Structural)]
pub struct WriteAvailabilityGuard {
    pub minimum_admitted_copies: u32,
    pub minimum_healthy_followers: u32,
    pub max_replica_lag_millis: u64,
}

/// The guard of a topology that names none.
pub open spec fn default_guard() -> WriteAvailabilityGuard {
    WriteAvailabilityGuard {
        minimum_admitted_copies: DEFAULT_MINIMUM_ADMITTED_COPIES,
        minimum_healthy_followers: DEFAULT_MINIMUM_HEALTHY_FOLLOWERS,
        max_replica_lag_millis: DEFAULT_MAX_REPLICA_LAG_MILLIS,
    }
}

impl Default for WriteAvailabilityGuard {
    fn default() -> (r: Self)
        ensures
            r == default_guard(),
    {
        WriteAvailabilityGuard {
            minimum_admitted_copies: DEFAULT_MINIMUM_ADMITTED_COPIES,
            minimum_healthy_followers: DEFAULT_MINIMUM_HEALTHY_FOLLOWERS,
            max_replica_lag_millis: DEFAULT_MAX_REPLICA_LAG_MILLIS,
        }
    }
}

/// Replication settings of a topology.
#[derive(Clone, Copy, Debug, Eq, PartialEq, Structural)]
pub struct TopologyConfig {
    pub desired_replication_factor: u32,
    pub write_ack_policy: WriteAckPolicy,
    pub write_availability_guard: WriteAvailabilityGuard,
}

/// The settings of a topology that names none.
pub open spec fn default_config() -> TopologyConfig {
    TopologyConfig {
        desired_replication_factor: DEFAULT_DESIRED_REPLICATION_FACTOR,
        write_ack_policy: WriteAckPolicy::OwnerOnly,
        write_availability_guard: default_guard(),
    }
}

impl Default for TopologyConfig {
    fn default() -> (r: Self)
        ensures
            r == default_config(),
    {
        TopologyConfig {
            desired_replication_factor: DEFAULT_DESIRED_REPLICATION_FACTOR,
            write_ack_policy: WriteAckPolicy::OwnerOnly,
            write_availability_guard: WriteAvailabilityGuard::default(),
        }
    }
}

/// A node of the cluster and where it is reached.
#[derive(Debug, Eq, PartialEq)]
pub struct Member {
    pub node_id: String,
    pub endpoint: String,
}

#[verifier::ext_equal]
pub struct MemberView {
    pub node_id: Seq<char>,
    pub endpoint: Seq<char>,
}

impl View for Member {
    type V = MemberView;

    open spec fn view(&self) -> MemberView {
        MemberView { node_id: self.node_id@, endpoint: self.endpoint@ }
    }
}

impl Clone for Member {
    fn clone(&self) -> (r: Self)
        ensures
            r == *self,
    {
        Member { node_id: self.node_id.clone(), endpoint: self.endpoint.clone() }
    }
}

/// A token on the ring and the node that it belongs to.
#[derive(Debug, Eq, PartialEq)]
pub struct TokenAssignment {
    pub token: u64,
    pub node_id: String,
}

impl View for TokenAssignment {
    type V = AssignmentView;

    open spec fn view(&self) -> AssignmentView {
        AssignmentView { token: self.token, node_id: self.node_id@ }
    }
}

impl Clone for TokenAssignment {
    fn clone(&self) -> (r: Self)
        ensures
            r == *self,
    {
        TokenAssignment { token: self.token, node_id: self.node_id.clone() }
    }
}

/// A hash interval and the nodes that hold it.
#[derive(Debug, Eq, PartialEq)]
pub struct DerivedRange {
    /// Hash interval `(start_exclusive, end_inclusive]`, wrapping at `u64::MAX`.
    pub start_exclusive: u64,
    pub end_inclusive: u64,
    pub owner_node_id: String,
    pub follower_node_ids: Vec<String>,
}

impl View for DerivedRange {
    type V = RangeView;

    open spec fn view(&self) -> RangeView {
        RangeView {
            start_exclusive: self.start_exclusive,
            end_inclusive: self.end_inclusive,
            owner_node_id: self.owner_node_id@,
            follower_node_ids: texts(self.follower_node_ids@),
        }
    }
}

/// One epoch of the cluster: who is a member, who owns which token, how writes are
/// acknowledged, and a digest over all of it.
#[derive(Debug, Eq, PartialEq)]
pub struct TopologySnapshot {
    pub epoch: u64,
    pub hash_seed: u64,
    pub hash_algorithm: String,
    pub encoding_version: u32,
    pub virtual_nodes: u32,
    pub desired_replication_factor: u32,
    pub write_ack_policy: WriteAckPolicy,
    pub write_availability_guard: WriteAvailabilityGuard,
    pub members: Vec<Member>,
    pub assignments: Vec<TokenAssignment>,
    pub digest: String,
}

#[verifier::ext_equal]
pub struct SnapshotView {
    pub epoch: u64,
    pub hash_seed: u64,
    pub hash_algorithm: Seq<char>,
    pub encoding_version: u32,
    pub virtual_nodes: u32,
    pub desired_replication_factor: u32,
    pub write_ack_policy: WriteAckPolicy,
    pub write_availability_guard: WriteAvailabilityGuard,
    pub members: Seq<MemberView>,
    pub assignments: Seq<AssignmentView>,
    pub digest: Seq<char>,
}

/// The views of a list of members.
pub open spec fn member_views(members: Seq<Member>) -> Seq<MemberView> {
    Seq::new(members.len(), |i: int| members[i]@)
}

/// The views of a list of assignments.
pub open spec fn assignment_views(assignments: Seq<TokenAssignment>) -> Seq<AssignmentView> {
    Seq::new(assignments.len(), |i: int| assignments[i]@)
}

impl View for TopologySnapshot {
    type V = SnapshotView;

    open spec fn view(&self) -> SnapshotView {
        SnapshotView {
            epoch: self.epoch,
            hash_seed: self.hash_seed,
            hash_algorithm: self.hash_algorithm@,
            encoding_version: self.encoding_version,
            virtual_nodes: self.virtual_nodes,
            desired_replication_factor: self.desired_replication_factor,
            write_ack_policy: self.write_ack_policy,
            write_availability_guard: self.write_availability_guard,
            members: member_views(self.members@),
            assignments: assignment_views(self.assignments@),
            digest: self.digest@,
        }
    }
}

impl SnapshotView {
    /// The replication settings.
    pub open spec fn config(self) -> TopologyConfig {
        TopologyConfig {
            desired_replication_factor: self.desired_replication_factor,
            write_ack_policy: self.write_ack_policy,
            write_availability_guard: self.write_availability_guard,
        }
    }

    /// The nodes that hold `token`, its owner first.
    pub open spec fn replicas(self, token: u64) -> Seq<Seq<char>> {
        replicas(self.assignments, self.desired_replication_factor, self.members.len(), token)
    }

    /// The node that owns `token`.
    pub open spec fn owner_id(self, token: u64) -> Seq<char> {
        self.assignments[owner_index(self.assignments, token)].node_id
    }

    /// The intervals of the ring.
    pub open spec fn ranges(self) -> Seq<RangeView> {
        ranges(self.assignments, self.desired_replication_factor, self.members.len())
    }

    /// The token of a key.
    pub open spec fn key_token(self, key: Seq<u8>) -> u64 {
        xxh3_64(key, self.hash_seed)
    }

    pub open spec fn is_member(self, node_id: Seq<char>) -> bool {
        exists|i: int| 0 <= i < self.members.len() && (#[trigger] self.members[i]).node_id == node_id
    }

    /// Tokens ascend and there is at least one: what placement needs.
    pub open spec fn placeable(self) -> bool {
        tokens_sorted(self.assignments) && self.assignments.len() > 0
    }
}

/// Why a topology is refused.
#[derive(Debug, Eq, PartialEq)]
pub enum TopologyError {
    NoMembers,
    NoVirtualNodes,
    TooManyMembers,
    TooManyVirtualNodes,
    TooManyAssignments,
    EmptyNodeId,
    NodeIdTooLong,
    EmptyEndpoint,
    EndpointTooLong,
    DuplicateNodeId(String),
    DuplicateEndpoint(String),
    NoAssignments,
    UnsupportedHashConfiguration { algorithm: String, encoding_version: u32 },
    DigestMismatch,
    NonCanonical,
    UnknownAssignedNode(String),
    NoReplicas,
    TooManyReplicas,
    FirstSuccessorRequiresFollower,
    NoMinimumAdmittedCopies,
    NoMaximumReplicaLag,
    MinimumAdmittedCopiesExceedReplicationFactor,
    MinimumHealthyFollowersExceedReplicationFactor,
    UnknownWriteAckPolicy(i32),
}

/// A single copy that is read-only by its own guard: accepted because it was once the
/// default.
pub open spec fn legacy_read_only(config: TopologyConfig) -> bool {
    &&& config.desired_replication_factor == 1
    &&& config.write_availability_guard.minimum_admitted_copies == 2
    &&& config.write_availability_guard.minimum_healthy_followers == 1
}

/// What is wrong with replication settings, if anything.
pub open spec fn config_error(config: TopologyConfig) -> Option<TopologyError> {
    let guard = config.write_availability_guard;
    if config.desired_replication_factor == 0 {
        Some(TopologyError::NoReplicas)
    } else if config.desired_replication_factor > MAX_MEMBERS {
        Some(TopologyError::TooManyReplicas)
    } else if config.write_ack_policy == WriteAckPolicy::FirstSuccessor
        && config.desired_replication_factor < 2 {
        Some(TopologyError::FirstSuccessorRequiresFollower)
    } else if guard.minimum_admitted_copies == 0 {
        Some(TopologyError::NoMinimumAdmittedCopies)
    } else if guard.max_replica_lag_millis == 0 {
        Some(TopologyError::NoMaximumReplicaLag)
    } else if !legacy_read_only(config) && guard.minimum_admitted_copies
        > config.desired_replication_factor {
        Some(TopologyError::MinimumAdmittedCopiesExceedReplicationFactor)
    } else if !legacy_read_only(config) && guard.minimum_healthy_followers
        > config.desired_replication_factor - 1 {
        Some(TopologyError::MinimumHealthyFollowersExceedReplicationFactor)
    } else {
        None
    }
}

/// Whether one of the first `n` members has this node id.
pub open spec fn node_id_before(members: Seq<Member>, n: int, node_id: Seq<char>) -> bool {
    exists|j: int| 0 <= j < n && (#[trigger] members[j]).node_id@ == node_id
}

/// Whether one of the first `n` members has this endpoint.
pub open spec fn endpoint_before(members: Seq<Member>, n: int, endpoint: Seq<char>) -> bool {
    exists|j: int| 0 <= j < n && (#[trigger] members[j]).endpoint@ == endpoint
}

/// What is wrong with member `i` beside those before it.
pub open spec fn member_fault(members: Seq<Member>, i: int) -> Option<TopologyError> {
    let m = members[i];
    if m.node_id@.len() == 0 {
        Some(TopologyError::EmptyNodeId)
    } else if byte_count(m.node_id@) > MAX_NODE_ID_BYTES {
        Some(TopologyError::NodeIdTooLong)
    } else if m.endpoint@.len() == 0 {
        Some(TopologyError::EmptyEndpoint)
    } else if byte_count(m.endpoint@) > MAX_ENDPOINT_BYTES {
        Some(TopologyError::EndpointTooLong)
    } else if node_id_before(members, i, m.node_id@) {
        Some(TopologyError::DuplicateNodeId(m.node_id))
    } else if endpoint_before(members, i, m.endpoint@) {
        Some(TopologyError::DuplicateEndpoint(m.endpoint))
    } else {
        None
    }
}

/// The first fault among the first `n` members.
pub open spec fn first_member_fault(members: Seq<Member>, n: nat) -> Option<TopologyError>
    decreases n,
{
    if n == 0 {
        None
    } else {
        match first_member_fault(members, (n - 1) as nat) {
            Some(e) => Some(e),
            None => member_fault(members, n - 1),
        }
    }
}

/// What is wrong with a membership, if anything.
pub open spec fn members_error(members: Seq<Member>, virtual_nodes: u32) -> Option<TopologyError> {
    if members.len() == 0 {
        Some(TopologyError::NoMembers)
    } else if virtual_nodes == 0 {
        Some(TopologyError::NoVirtualNodes)
    } else if members.len() > MAX_MEMBERS {
        Some(TopologyError::TooManyMembers)
    } else if virtual_nodes > MAX_VIRTUAL_NODES {
        Some(TopologyError::TooManyVirtualNodes)
    } else if members.len() * virtual_nodes > MAX_TOKEN_ASSIGNMENTS {
        Some(TopologyError::TooManyAssignments)
    } else {
        first_member_fault(members, members.len())
    }
}

/// What a construction is refused for, if anything.
pub open spec fn construction_error(
    members: Seq<Member>,
    virtual_nodes: u32,
    config: TopologyConfig,
) -> Option<TopologyError> {
    match members_error(members, virtual_nodes) {
        Some(e) => Some(e),
        None => config_error(config),
    }
}

/// Order of members: by node id, then by endpoint.
pub open spec fn member_le(a: MemberView, b: MemberView) -> bool {
    if a.node_id == b.node_id {
        lex_le(text_rank(a.endpoint), text_rank(b.endpoint))
    } else {
        lex_lt(text_rank(a.node_id), text_rank(b.node_id))
    }
}

pub open spec fn member_order() -> spec_fn(MemberView, MemberView) -> bool {
    |a: MemberView, b: MemberView| member_le(a, b)
}

/// Order of assignments: by token, then by node id.
pub open spec fn assignment_le(a: AssignmentView, b: AssignmentView) -> bool {
    a.token < b.token || (a.token == b.token && lex_le(text_rank(a.node_id), text_rank(b.node_id)))
}

pub open spec fn assignment_order() -> spec_fn(AssignmentView, AssignmentView) -> bool {
    |a: AssignmentView, b: AssignmentView| assignment_le(a, b)
}

/// What is hashed to place a virtual node.
pub open spec fn vnode_bytes(node_id: Seq<char>, vnode: u32) -> Seq<u8> {
    encode_utf8("hashring-rs:vnode:v1\0"@) + framed(encode_utf8(node_id)) + be32(vnode)
}

/// Where a virtual node stands on the ring.
pub open spec fn vnode_token(hash_seed: u64, node_id: Seq<char>, vnode: u32) -> u64 {
    xxh3_64(vnode_bytes(node_id, vnode), hash_seed)
}

/// The assignments of one node, by virtual node.
pub open spec fn node_assignments(
    hash_seed: u64,
    virtual_nodes: u32,
    node_id: Seq<char>,
) -> Seq<AssignmentView> {
    Seq::new(
        virtual_nodes as nat,
        |v: int|
            AssignmentView { token: vnode_token(hash_seed, node_id, v as u32), node_id: node_id },
    )
}

/// The assignments of the first `n` members, member by member.
pub open spec fn all_assignments(
    hash_seed: u64,
    virtual_nodes: u32,
    members: Seq<MemberView>,
    n: nat,
) -> Seq<AssignmentView>
    decreases n,
{
    if n == 0 {
        Seq::empty()
    } else {
        all_assignments(hash_seed, virtual_nodes, members, (n - 1) as nat) + node_assignments(
            hash_seed,
            virtual_nodes,
            members[n - 1].node_id,
        )
    }
}

/// The snapshot of a membership: members and assignments sorted, and the digest of the
/// whole taken with an empty digest in it.
pub open spec fn build(
    epoch: u64,
    hash_seed: u64,
    virtual_nodes: u32,
    members: Seq<MemberView>,
    config: TopologyConfig,
) -> SnapshotView {
    let sorted = members.sort_by(member_order());
    let bare = SnapshotView {
        epoch: epoch,
        hash_seed: hash_seed,
        hash_algorithm: HASH_ALGORITHM@,
        encoding_version: ENCODING_VERSION,
        virtual_nodes: virtual_nodes,
        desired_replication_factor: config.desired_replication_factor,
        write_ack_policy: config.write_ack_policy,
        write_availability_guard: config.write_availability_guard,
        members: sorted,
        assignments: all_assignments(hash_seed, virtual_nodes, sorted, sorted.len()).sort_by(
            assignment_order(),
        ),
        digest: Seq::empty(),
    };
    SnapshotView { digest: blake3_hex(canonical_json(bare)), ..bare }
}

/// The first of the first `n` assignments whose node is no member.
pub open spec fn unknown_assigned(
    members: Seq<Member>,
    assignments: Seq<TokenAssignment>,
    n: nat,
) -> Option<TopologyError>
    decreases n,
{
    if n == 0 {
        None
    } else {
        match unknown_assigned(members, assignments, (n - 1) as nat) {
            Some(e) => Some(e),
            None => if node_id_before(
                members,
                members.len() as int,
                assignments[n - 1].node_id@,
            ) {
                None
            } else {
                Some(TopologyError::UnknownAssignedNode(assignments[n - 1].node_id))
            },
        }
    }
}

/// What is wrong with a snapshot, if anything: a snapshot is valid exactly if it is what
/// its own members and settings build.
pub open spec fn validation_error(s: TopologySnapshot) -> Option<TopologyError> {
    let canonical = build(s.epoch, s.hash_seed, s.virtual_nodes, s@.members, s@.config());
    if construction_error(s.members@, s.virtual_nodes, s@.config()) is Some {
        construction_error(s.members@, s.virtual_nodes, s@.config())
    } else if s.hash_algorithm@ != HASH_ALGORITHM@ || s.encoding_version != ENCODING_VERSION {
        Some(
            TopologyError::UnsupportedHashConfiguration {
                algorithm: s.hash_algorithm,
                encoding_version: s.encoding_version,
            },
        )
    } else if s.assignments@.len() == 0 {
        Some(TopologyError::NoAssignments)
    } else if unknown_assigned(s.members@, s.assignments@, s.assignments@.len()) is Some {
        unknown_assigned(s.members@, s.assignments@, s.assignments@.len())
    } else if canonical.digest != s.digest@ {
        Some(TopologyError::DigestMismatch)
    } else if canonical.members != s@.members || canonical.assignments != s@.assignments {
        Some(TopologyError::NonCanonical)
    } else {
        None
    }
}

proof fn lemma_lex_le_total(a: Seq<int>, b: Seq<int>, c: Seq<int>)
    ensures
        lex_le(a, b) || lex_le(b, a),
        lex_le(a, b) && lex_le(b, a) ==> a == b,
        lex_le(a, b) && lex_le(b, c) ==> lex_le(a, c),
        lex_lt(a, b) && lex_lt(b, c) ==> lex_lt(a, c),
        lex_lt(a, b) ==> !lex_lt(b, a),
        a != b ==> lex_lt(a, b) || lex_lt(b, a),
{
    lemma_lex_total(a, b);
    if lex_lt(a, b) {
        lemma_lex_asymmetric(a, b);
        if lex_lt(b, c) {
            lemma_lex_transitive(a, b, c);
        }
    }
}

pub proof fn lemma_member_order()
    ensures
        total_ordering(member_order()),
{
    let r = member_order();
    assert forall|x: MemberView, y: MemberView| #[trigger] r(x, y) && #[trigger] r(y, x) implies x
        == y by {
        lemma_lex_le_total(text_rank(x.node_id), text_rank(y.node_id), text_rank(x.node_id));
        lemma_lex_le_total(text_rank(x.endpoint), text_rank(y.endpoint), text_rank(x.endpoint));
        lemma_text_rank_injective_if(x.endpoint, y.endpoint);
        assert(x =~= y);
    }
    assert forall|x: MemberView, y: MemberView, z: MemberView| #[trigger]
        r(x, y) && #[trigger] r(y, z) implies r(x, z) by {
        lemma_lex_le_total(text_rank(x.node_id), text_rank(y.node_id), text_rank(z.node_id));
        lemma_lex_le_total(text_rank(x.endpoint), text_rank(y.endpoint), text_rank(z.endpoint));
        lemma_text_rank_injective_if(x.node_id, z.node_id);
    }
    assert forall|x: MemberView, y: MemberView| #[trigger] r(x, y) || #[trigger] r(y, x) by {
        lemma_lex_le_total(text_rank(x.node_id), text_rank(y.node_id), text_rank(x.node_id));
        lemma_lex_le_total(text_rank(x.endpoint), text_rank(y.endpoint), text_rank(x.endpoint));
        lemma_text_rank_injective_if(x.node_id, y.node_id);
    }
}

proof fn lemma_text_rank_injective_if(a: Seq<char>, b: Seq<char>)
    ensures
        text_rank(a) == text_rank(b) ==> a == b,
{
    if text_rank(a) == text_rank(b) {
        lemma_text_rank_injective(a, b);
    }
}

pub proof fn lemma_assignment_order()
    ensures
        total_ordering(assignment_order()),
{
    let r = assignment_order();
    assert forall|x: AssignmentView, y: AssignmentView| #[trigger]
        r(x, y) && #[trigger] r(y, x) implies x == y by {
        lemma_lex_le_total(text_rank(x.node_id), text_rank(y.node_id), text_rank(x.node_id));
        lemma_text_rank_injective_if(x.node_id, y.node_id);
        assert(x =~= y);
    }
    assert forall|x: AssignmentView, y: AssignmentView, z: AssignmentView| #[trigger]
        r(x, y) && #[trigger] r(y, z) implies r(x, z) by {
        lemma_lex_le_total(text_rank(x.node_id), text_rank(y.node_id), text_rank(z.node_id));
    }
    assert forall|x: AssignmentView, y: AssignmentView| #[trigger] r(x, y) || #[trigger] r(y, x) by {
        lemma_lex_le_total(text_rank(x.node_id), text_rank(y.node_id), text_rank(x.node_id));
    }
}

fn member_not_after(a: &Member, b: &Member) -> (r: bool)
    ensures
        r == member_le(a@, b@),
{
    match order_text(a.node_id.as_str(), b.node_id.as_str()) {
        Position::Before => true,
        Position::After => false,
        Position::Same => match order_text(a.endpoint.as_str(), b.endpoint.as_str()) {
            Position::After => false,
            _ => true,
        },
    }
}

/// Members in canonical order.
fn sort_members(members: &Vec<Member>) -> (r: Vec<Member>)
    ensures
        member_views(r@) == member_views(members@).sort_by(member_order()),
{
    broadcast use {vstd::seq_lib::group_to_multiset_ensures, vstd::multiset::group_multiset_axioms};

    proof {
        lemma_member_order();
    }
    let ghost views = member_views(members@);
    let mut r: Vec<Member> = Vec::new();
    let mut n: usize = 0;
    proof {
        assert(member_views(r@) =~= views.subrange(0, 0));
    }
    while n < members.len()
        invariant
            n <= members.len(),
            views == member_views(members@),
            r@.len() == n,
            total_ordering(member_order()),
            sorted_by(member_views(r@), member_order()),
            member_views(r@).to_multiset() == views.subrange(0, n as int).to_multiset(),
        decreases members.len() - n,
    {
        broadcast use {
            vstd::seq_lib::group_to_multiset_ensures,
            vstd::multiset::group_multiset_axioms,
        };

        let ghost held = member_views(r@);
        let ghost x = members@[n as int]@;
        let mut at: usize = r.len();
        while at > 0 && !member_not_after(&r[at - 1], &members[n])
            invariant
                at <= r.len(),
                n < members.len(),
                held == member_views(r@),
                x == members@[n as int]@,
                total_ordering(member_order()),
                forall|j: int| at <= j < held.len() ==> member_le(x, #[trigger] held[j]),
            decreases at,
        {
            proof {
                let y = held[at - 1];
                assert(y == r@[at - 1]@);
                assert(member_order()(y, x) || member_order()(x, y));
            }
            at = at - 1;
        }
        proof {
            if at > 0 {
                assert(held[at - 1] == r@[at - 1]@);
                assert(member_le(held[at - 1], x));
                assert forall|j: int| 0 <= j < at implies member_le(#[trigger] held[j], x) by {
                    if j < at - 1 {
                        assert(member_order()(held[j], held[at - 1]));
                        assert(member_order()(held[at - 1], x));
                        assert(member_order()(held[j], x));
                    }
                }
            }
        }
        r.insert(at, members[n].clone());
        proof {
            let now = member_views(r@);
            assert(now =~= held.insert(at as int, x));
            assert(sorted_by(now, member_order())) by {
                assert forall|i: int, j: int| 0 <= i < j < now.len() implies #[trigger] member_order()(
                    now[i],
                    now[j],
                ) by {
                    let i2 = if i < at {
                        i
                    } else {
                        i - 1
                    };
                    let j2 = if j < at {
                        j
                    } else {
                        j - 1
                    };
                    if i != at && j != at {
                        assert(member_order()(held[i2], held[j2]));
                    } else if i == at {
                        assert(member_le(x, held[j2]));
                    } else {
                        assert(member_le(held[i2], x));
                    }
                }
            }
            assert(now.remove(at as int) =~= held);
            assert(now[at as int] == x);
            assert(held.to_multiset() =~= now.to_multiset().remove(x));
            assert(now.contains(x));
            assert(now.to_multiset() =~= held.to_multiset().insert(x));
            assert(views.subrange(0, n + 1) =~= views.subrange(0, n as int).push(x));
        }
        n = n + 1;
    }
    proof {
        assert(views.subrange(0, views.len() as int) =~= views);
        views.lemma_sort_by_ensures(member_order());
        lemma_sorted_unique(member_views(r@), views.sort_by(member_order()), member_order());
    }
    r
}

/// What is hashed to place a virtual node.
fn vnode_bytes_of(node_id: &str, vnode: u32) -> (r: Vec<u8>)
    ensures
        r@ == vnode_bytes(node_id@, vnode),
{
    let mut encoded: Vec<u8> = Vec::new();
    put_text(&mut encoded, "hashring-rs:vnode:v1\0");
    put_framed_text(&mut encoded, node_id);
    put_be32(&mut encoded, vnode);
    encoded
}

/// The assignment that a token and the index of a member stand for.
spec fn pair_assignment(members: Seq<MemberView>, p: (u64, u64)) -> AssignmentView {
    AssignmentView { token: p.0, node_id: members[p.1 as int].node_id }
}

/// The assignments of all members in canonical order.
fn assign_tokens(hash_seed: u64, virtual_nodes: u32, members: &Vec<Member>) -> (r: Vec<TokenAssignment>)
    requires
        members@.len() <= MAX_MEMBERS,
        sorted_by(member_views(members@), member_order()),
    ensures
        assignment_views(r@) == all_assignments(
            hash_seed,
            virtual_nodes,
            member_views(members@),
            members@.len(),
        ).sort_by(assignment_order()),
{
    let ghost views = member_views(members@);
    let ghost f = |p: (u64, u64)| pair_assignment(views, p);
    let mut pairs: Vec<(u64, u64)> = Vec::new();
    let mut i: usize = 0;
    proof {
        assert(pairs@.map_values(f) =~= all_assignments(hash_seed, virtual_nodes, views, 0));
    }
    while i < members.len()
        invariant
            i <= members.len(),
            members@.len() <= MAX_MEMBERS,
            views == member_views(members@),
            f == (|p: (u64, u64)| pair_assignment(views, p)),
            pairs@.map_values(f) == all_assignments(hash_seed, virtual_nodes, views, i as nat),
            forall|k: int| 0 <= k < pairs@.len() ==> (#[trigger] pairs@[k]).1 < members@.len(),
        decreases members.len() - i,
    {
        let ghost before = pairs@;
        let ghost node_id = views[i as int].node_id;
        let mut vnode: u32 = 0;
        while vnode < virtual_nodes
            invariant
                vnode <= virtual_nodes,
                i < members.len(),
                members@.len() <= MAX_MEMBERS,
                views == member_views(members@),
                node_id == views[i as int].node_id,
                f == (|p: (u64, u64)| pair_assignment(views, p)),
                pairs@.map_values(f) == before.map_values(f) + node_assignments(
                    hash_seed,
                    vnode,
                    node_id,
                ),
                forall|k: int| 0 <= k < pairs@.len() ==> (#[trigger] pairs@[k]).1 < members@.len(),
            decreases virtual_nodes - vnode,
        {
            let encoded = vnode_bytes_of(members[i].node_id.as_str(), vnode);
            let token = xxh3_of(encoded.as_slice(), hash_seed);
            let ghost held = pairs@;
            pairs.push((token, i as u64));
            proof {
                assert(pairs@.map_values(f) =~= held.map_values(f).push(f((token, i as u64))));
                assert(node_assignments(hash_seed, (vnode + 1) as u32, node_id)
                    =~= node_assignments(hash_seed, vnode, node_id).push(f((token, i as u64))));
                assert(pairs@.map_values(f) =~= before.map_values(f) + node_assignments(
                    hash_seed,
                    (vnode + 1) as u32,
                    node_id,
                ));
            }
            vnode = vnode + 1;
        }
        i = i + 1;
    }
    let sorted = sort_pairs(&pairs, 0, pairs.len());
    let ghost all = all_assignments(hash_seed, virtual_nodes, views, views.len());
    let mut r: Vec<TokenAssignment> = Vec::new();
    proof {
        assert(pairs@.subrange(0, pairs@.len() as int) =~= pairs@);
        lemma_map_keeps_multiset(sorted@, pairs@, f);
        assert forall|k: int| 0 <= k < sorted@.len() implies (#[trigger] sorted@[k]).1
            < members@.len() by {
            broadcast use vstd::seq_lib::group_to_multiset_ensures;

            assert(sorted@.contains(sorted@[k]));
            assert(pairs@.to_multiset().count(sorted@[k]) > 0);
            assert(pairs@.contains(sorted@[k]));
        }
    }
    let mut k: usize = 0;
    while k < sorted.len()
        invariant
            k <= sorted.len(),
            members@.len() <= MAX_MEMBERS,
            views == member_views(members@),
            f == (|p: (u64, u64)| pair_assignment(views, p)),
            forall|k: int| 0 <= k < sorted@.len() ==> (#[trigger] sorted@[k]).1 < members@.len(),
            r@.len() == k,
            forall|j: int| 0 <= j < k ==> (#[trigger] r@[j])@ == f(sorted@[j]),
        decreases sorted.len() - k,
    {
        let owner = sorted[k].1 as usize;
        r.push(TokenAssignment { token: sorted[k].0, node_id: members[owner].node_id.clone() });
        k = k + 1;
    }
    proof {
        let out = assignment_views(r@);
        assert(out =~= sorted@.map_values(f));
        lemma_assignment_order();
        assert(sorted_by(out, assignment_order())) by {
            assert forall|a: int, b: int| 0 <= a < b < out.len() implies #[trigger] assignment_order()(
                out[a],
                out[b],
            ) by {
                assert(pair_order()(sorted@[a], sorted@[b]));
                let x = sorted@[a].1 as int;
                let y = sorted@[b].1 as int;
                if sorted@[a].0 == sorted@[b].0 && x < y {
                    assert(member_order()(views[x], views[y]));
                }
            }
        }
        all.lemma_sort_by_ensures(assignment_order());
        lemma_sorted_unique(out, all.sort_by(assignment_order()), assignment_order());
    }
    r
}

/// Whether one of the first `n` members has this node id.
fn has_node_id(members: &[Member], n: usize, node_id: &str) -> (r: bool)
    requires
        n <= members@.len(),
    ensures
        r == node_id_before(members@, n as int, node_id@),
{
    let mut j: usize = 0;
    while j < n
        invariant
            j <= n <= members@.len(),
            forall|k: int| 0 <= k < j ==> (#[trigger] members@[k]).node_id@ != node_id@,
        decreases n - j,
    {
        if same_text(members[j].node_id.as_str(), node_id) {
            return true;
        }
        j = j + 1;
    }
    false
}

/// Whether one of the first `n` members has this endpoint.
fn has_endpoint(members: &[Member], n: usize, endpoint: &str) -> (r: bool)
    requires
        n <= members@.len(),
    ensures
        r == endpoint_before(members@, n as int, endpoint@),
{
    let mut j: usize = 0;
    while j < n
        invariant
            j <= n <= members@.len(),
            forall|k: int| 0 <= k < j ==> (#[trigger] members@[k]).endpoint@ != endpoint@,
        decreases n - j,
    {
        if same_text(members[j].endpoint.as_str(), endpoint) {
            return true;
        }
        j = j + 1;
    }
    false
}

proof fn lemma_fault_stays(members: Seq<Member>, k: nat, n: nat)
    requires
        k <= n,
        first_member_fault(members, k) is Some,
    ensures
        first_member_fault(members, n) == first_member_fault(members, k),
    decreases n,
{
    if k < n {
        lemma_fault_stays(members, k, (n - 1) as nat);
    }
}

/// Checks replication settings.
pub fn validate_config(config: &TopologyConfig) -> (r: Result<(), TopologyError>)
    ensures
        match config_error(*config) {
            Some(e) => r == Err::<(), TopologyError>(e),
            None => r is Ok,
        },
{
    if config.desired_replication_factor == 0 {
        return Err(TopologyError::NoReplicas);
    }
    if config.desired_replication_factor as usize > MAX_MEMBERS {
        return Err(TopologyError::TooManyReplicas);
    }
    if config.write_ack_policy == WriteAckPolicy::FirstSuccessor && config.desired_replication_factor
        < 2 {
        return Err(TopologyError::FirstSuccessorRequiresFollower);
    }
    let guard = &config.write_availability_guard;
    if guard.minimum_admitted_copies == 0 {
        return Err(TopologyError::NoMinimumAdmittedCopies);
    }
    if guard.max_replica_lag_millis == 0 {
        return Err(TopologyError::NoMaximumReplicaLag);
    }
    // A single copy with a guard of two copies and one follower was once the default
    // and is read-only: stored snapshots of it stay loadable.
    let legacy = config.desired_replication_factor == 1 && guard.minimum_admitted_copies == 2
        && guard.minimum_healthy_followers == 1;
    if !legacy && guard.minimum_admitted_copies > config.desired_replication_factor {
        return Err(TopologyError::MinimumAdmittedCopiesExceedReplicationFactor);
    }
    if !legacy && guard.minimum_healthy_followers > config.desired_replication_factor - 1 {
        return Err(TopologyError::MinimumHealthyFollowersExceedReplicationFactor);
    }
    Ok(())
}

/// Checks a membership.
pub fn validate_members(members: &[Member], virtual_nodes: u32) -> (r: Result<(), TopologyError>)
    ensures
        match members_error(members@, virtual_nodes) {
            Some(e) => r == Err::<(), TopologyError>(e),
            None => r is Ok,
        },
{
    if members.len() == 0 {
        return Err(TopologyError::NoMembers);
    }
    if virtual_nodes == 0 {
        return Err(TopologyError::NoVirtualNodes);
    }
    if members.len() > MAX_MEMBERS {
        return Err(TopologyError::TooManyMembers);
    }
    if virtual_nodes > MAX_VIRTUAL_NODES {
        return Err(TopologyError::TooManyVirtualNodes);
    }
    let count = members.len();
    proof {
        assert(0 <= count * virtual_nodes <= 1_024 * 4_096) by (nonlinear_arith)
            requires
                0 <= count <= 1_024,
                0 <= virtual_nodes <= 4_096,
        ;
    }
    if count * (virtual_nodes as usize) > MAX_TOKEN_ASSIGNMENTS {
        return Err(TopologyError::TooManyAssignments);
    }
    let mut i: usize = 0;
    while i < members.len()
        invariant
            i <= members@.len(),
            0 < members@.len() <= MAX_MEMBERS,
            0 < virtual_nodes <= MAX_VIRTUAL_NODES,
            members@.len() * virtual_nodes <= MAX_TOKEN_ASSIGNMENTS,
            first_member_fault(members@, i as nat) is None,
        decreases members.len() - i,
    {
        let member = &members[i];
        let fault = if member.node_id.as_str().is_empty() {
            Some(TopologyError::EmptyNodeId)
        } else if text_len(member.node_id.as_str()) > MAX_NODE_ID_BYTES {
            Some(TopologyError::NodeIdTooLong)
        } else if member.endpoint.as_str().is_empty() {
            Some(TopologyError::EmptyEndpoint)
        } else if text_len(member.endpoint.as_str()) > MAX_ENDPOINT_BYTES {
            Some(TopologyError::EndpointTooLong)
        } else if has_node_id(members, i, member.node_id.as_str()) {
            Some(TopologyError::DuplicateNodeId(member.node_id.clone()))
        } else if has_endpoint(members, i, member.endpoint.as_str()) {
            Some(TopologyError::DuplicateEndpoint(member.endpoint.clone()))
        } else {
            None
        };
        proof {
            assert(fault == member_fault(members@, i as int));
        }
        if let Some(e) = fault {
            proof {
                lemma_fault_stays(members@, (i + 1) as nat, members@.len());
            }
            return Err(e);
        }
        i = i + 1;
    }
    Ok(())
}

/// Copies a list of members.
pub fn copy_members(members: &Vec<Member>) -> (r: Vec<Member>)
    ensures
        r@ == members@,
{
    let mut r: Vec<Member> = Vec::new();
    let mut i: usize = 0;
    while i < members.len()
        invariant
            i <= members.len(),
            r@ == members@.subrange(0, i as int),
        decreases members.len() - i,
    {
        r.push(members[i].clone());
        i = i + 1;
        proof {
            assert(r@ =~= members@.subrange(0, i as int));
        }
    }
    proof {
        assert(r@ =~= members@);
    }
    r
}

/// Tells whether two lists of members are equal.
pub fn same_members(a: &Vec<Member>, b: &Vec<Member>) -> (r: bool)
    ensures
        r == (member_views(a@) == member_views(b@)),
{
    if a.len() != b.len() {
        proof {
            assert(member_views(a@).len() != member_views(b@).len());
        }
        return false;
    }
    let mut i: usize = 0;
    while i < a.len()
        invariant
            i <= a.len(),
            a.len() == b.len(),
            forall|j: int| 0 <= j < i ==> (#[trigger] a@[j])@ == b@[j]@,
        decreases a.len() - i,
    {
        if !same_text(a[i].node_id.as_str(), b[i].node_id.as_str()) || !same_text(
            a[i].endpoint.as_str(),
            b[i].endpoint.as_str(),
        ) {
            proof {
                assert(member_views(a@)[i as int] != member_views(b@)[i as int]);
            }
            return false;
        }
        i = i + 1;
    }
    proof {
        assert(member_views(a@) =~= member_views(b@));
    }
    true
}

/// Tells whether two lists of assignments are equal.
pub fn same_assignments(a: &Vec<TokenAssignment>, b: &Vec<TokenAssignment>) -> (r: bool)
    ensures
        r == (assignment_views(a@) == assignment_views(b@)),
{
    if a.len() != b.len() {
        proof {
            assert(assignment_views(a@).len() != assignment_views(b@).len());
        }
        return false;
    }
    let mut i: usize = 0;
    while i < a.len()
        invariant
            i <= a.len(),
            a.len() == b.len(),
            forall|j: int| 0 <= j < i ==> (#[trigger] a@[j])@ == b@[j]@,
        decreases a.len() - i,
    {
        if a[i].token != b[i].token || !same_text(a[i].node_id.as_str(), b[i].node_id.as_str()) {
            proof {
                assert(assignment_views(a@)[i as int] != assignment_views(b@)[i as int]);
            }
            return false;
        }
        i = i + 1;
    }
    proof {
        assert(assignment_views(a@) =~= assignment_views(b@));
    }
    true
}

impl TopologySnapshot {
    /// A snapshot with the default replication settings.
    pub fn new(epoch: u64, hash_seed: u64, virtual_nodes: u32, members: Vec<Member>) -> (r: Result<
        Self,
        TopologyError,
    >)
        ensures
            match construction_error(members@, virtual_nodes, default_config()) {
                Some(e) => r == Err::<Self, TopologyError>(e),
                None => r is Ok && r->Ok_0@ == build(
                    epoch,
                    hash_seed,
                    virtual_nodes,
                    member_views(members@),
                    default_config(),
                ),
            },
    {
        Self::new_with_config(epoch, hash_seed, virtual_nodes, members, TopologyConfig::default())
    }

    /// A snapshot of a membership, in canonical form.
    pub fn new_with_config(
        epoch: u64,
        hash_seed: u64,
        virtual_nodes: u32,
        members: Vec<Member>,
        config: TopologyConfig,
    ) -> (r: Result<Self, TopologyError>)
        ensures
            match construction_error(members@, virtual_nodes, config) {
                Some(e) => r == Err::<Self, TopologyError>(e),
                None => r is Ok && r->Ok_0@ == build(
                    epoch,
                    hash_seed,
                    virtual_nodes,
                    member_views(members@),
                    config,
                ),
            },
            r matches Ok(t) ==> t@.digest.len() == 64,
    {
        if let Err(e) = validate_members(members.as_slice(), virtual_nodes) {
            return Err(e);
        }
        if let Err(e) = validate_config(&config) {
            return Err(e);
        }
        let sorted = sort_members(&members);
        proof {
            lemma_member_order();
            member_views(members@).lemma_sort_by_ensures(member_order());
            vstd::seq_lib::to_multiset_len(member_views(members@));
            vstd::seq_lib::to_multiset_len(member_views(sorted@));
        }
        let assignments = assign_tokens(hash_seed, virtual_nodes, &sorted);
        let mut snapshot = TopologySnapshot {
            epoch: epoch,
            hash_seed: hash_seed,
            hash_algorithm: HASH_ALGORITHM.to_owned(),
            encoding_version: ENCODING_VERSION,
            virtual_nodes: virtual_nodes,
            desired_replication_factor: config.desired_replication_factor,
            write_ack_policy: config.write_ack_policy,
            write_availability_guard: config.write_availability_guard,
            members: sorted,
            assignments: assignments,
            digest: String::new(),
        };
        snapshot.digest = snapshot.calculate_digest();
        Ok(snapshot)
    }

    /// The digest of everything else in the snapshot.
    pub fn calculate_digest(&self) -> (r: String)
        ensures
            r@ == blake3_hex(canonical_json(SnapshotView { digest: Seq::empty(), ..self@ })),
            r@.len() == 64,
    {
        let none = String::new();
        let canonical = canonical_json_of(self, none.as_str());
        blake3_hex_of(canonical.as_slice())
    }

    /// The replication settings.
    pub fn config(&self) -> (r: TopologyConfig)
        ensures
            r == self@.config(),
    {
        TopologyConfig {
            desired_replication_factor: self.desired_replication_factor,
            write_ack_policy: self.write_ack_policy,
            write_availability_guard: self.write_availability_guard,
        }
    }

    /// Checks that the snapshot is the canonical one of its members and settings.
    pub fn validate(&self) -> (r: Result<(), TopologyError>)
        ensures
            match validation_error(*self) {
                Some(e) => r == Err::<(), TopologyError>(e),
                None => r is Ok,
            },
            r is Ok ==> self@.digest.len() == 64,
            r is Ok ==> snapshot_size(self@.sent()) <= MAX_CONTROL_MESSAGE_BYTES,
    {
        let config = self.config();
        if let Err(e) = validate_members(self.members.as_slice(), self.virtual_nodes) {
            return Err(e);
        }
        if let Err(e) = validate_config(&config) {
            return Err(e);
        }
        if !same_text(self.hash_algorithm.as_str(), HASH_ALGORITHM) || self.encoding_version
            != ENCODING_VERSION {
            return Err(
                TopologyError::UnsupportedHashConfiguration {
                    algorithm: self.hash_algorithm.clone(),
                    encoding_version: self.encoding_version,
                },
            );
        }
        if self.assignments.len() == 0 {
            return Err(TopologyError::NoAssignments);
        }
        if let Err(e) = self.check_assigned_nodes() {
            return Err(e);
        }
        let canonical = match Self::new_with_config(
            self.epoch,
            self.hash_seed,
            self.virtual_nodes,
            copy_members(&self.members),
            config,
        ) {
            Ok(canonical) => canonical,
            Err(e) => return Err(e),
        };
        if !same_text(canonical.digest.as_str(), self.digest.as_str()) {
            return Err(TopologyError::DigestMismatch);
        }
        if !same_members(&canonical.members, &self.members) || !same_assignments(
            &canonical.assignments,
            &self.assignments,
        ) {
            return Err(TopologyError::NonCanonical);
        }
        proof {
            law_topologies_fit_control_messages(*self);
        }
        Ok(())
    }

    /// Checks that every assignment belongs to a member.
    fn check_assigned_nodes(&self) -> (r: Result<(), TopologyError>)
        ensures
            match unknown_assigned(self.members@, self.assignments@, self.assignments@.len()) {
                Some(e) => r == Err::<(), TopologyError>(e),
                None => r is Ok,
            },
    {
        let mut ids: SortedMap<String, bool> = SortedMap::new();
        let mut i: usize = 0;
        while i < self.members.len()
            invariant
                i <= self.members@.len(),
                forall|id: Seq<char>| #[trigger]
                    ids@.contains_key(id) == node_id_before(self.members@, i as int, id),
            decreases self.members.len() - i,
        {
            let ghost before = ids@;
            let ghost node_id = self.members@[i as int].node_id@;
            let _ = ids.insert(self.members[i].node_id.clone(), true);
            proof {
                assert forall|id: Seq<char>| #[trigger]
                    ids@.contains_key(id) == node_id_before(self.members@, i + 1, id) by {
                    if before.contains_key(id) {
                        let j = choose|j: int|
                            0 <= j < i && (#[trigger] self.members@[j]).node_id@ == id;
                        assert(self.members@[j].node_id@ == id);
                    }
                    if id == node_id {
                        assert(self.members@[i as int].node_id@ == id);
                    }
                    if node_id_before(self.members@, i + 1, id) {
                        let j = choose|j: int|
                            0 <= j < i + 1 && (#[trigger] self.members@[j]).node_id@ == id;
                        if j < i {
                            assert(node_id_before(self.members@, i as int, id));
                        }
                    }
                }
            }
            i = i + 1;
        }
        let mut k: usize = 0;
        while k < self.assignments.len()
            invariant
                k <= self.assignments@.len(),
                unknown_assigned(self.members@, self.assignments@, k as nat) is None,
                forall|id: Seq<char>| #[trigger]
                    ids@.contains_key(id) == node_id_before(
                        self.members@,
                        self.members@.len() as int,
                        id,
                    ),
            decreases self.assignments.len() - k,
        {
            if !ids.contains(&self.assignments[k].node_id) {
                proof {
                    lemma_unknown_stays(
                        self.members@,
                        self.assignments@,
                        (k + 1) as nat,
                        self.assignments@.len(),
                    );
                }
                return Err(TopologyError::UnknownAssignedNode(self.assignments[k].node_id.clone()));
            }
            k = k + 1;
        }
        Ok(())
    }
}

proof fn lemma_unknown_stays(
    members: Seq<Member>,
    assignments: Seq<TokenAssignment>,
    k: nat,
    n: nat,
)
    requires
        k <= n,
        unknown_assigned(members, assignments, k) is Some,
    ensures
        unknown_assigned(members, assignments, n) == unknown_assigned(members, assignments, k),
    decreases n,
{
    if k < n {
        lemma_unknown_stays(members, assignments, k, (n - 1) as nat);
    }
}

/// Index of the first member with this node id.
pub open spec fn first_member(members: Seq<MemberView>, node_id: Seq<char>) -> int {
    choose|i: int|
        0 <= i < members.len() && (#[trigger] members[i]).node_id == node_id && forall|j: int|
            0 <= j < i ==> (#[trigger] members[j]).node_id != node_id
}

pub proof fn lemma_first_member(members: Seq<MemberView>, node_id: Seq<char>, i: int)
    requires
        0 <= i < members.len(),
        members[i].node_id == node_id,
        forall|j: int| 0 <= j < i ==> (#[trigger] members[j]).node_id != node_id,
    ensures
        first_member(members, node_id) == i,
{
    let k = first_member(members, node_id);
    assert(members[i].node_id == node_id);
    assert(0 <= k < members.len() && members[k].node_id == node_id);
    if k < i {
        assert(members[k].node_id != node_id);
    } else if i < k {
        assert(members[i].node_id != node_id);
    }
}

impl TopologySnapshot {
    /// The token of a key.
    pub fn key_token(&self, key: &[u8]) -> (token: u64)
        ensures
            token == self@.key_token(key@),
    {
        xxh3_of(key, self.hash_seed)
    }

    /// The first member with this node id.
    pub fn member(&self, node_id: &str) -> (r: Option<&Member>)
        ensures
            r is Some == self@.is_member(node_id@),
            r matches Some(m) ==> {
                &&& *m == self.members@[first_member(self@.members, node_id@)]
                &&& m.node_id@ == node_id@
            },
    {
        let mut i: usize = 0;
        while i < self.members.len()
            invariant
                i <= self.members.len(),
                forall|j: int| 0 <= j < i ==> (#[trigger] self@.members[j]).node_id != node_id@,
            decreases self.members.len() - i,
        {
            if same_text(self.members[i].node_id.as_str(), node_id) {
                proof {
                    assert(self@.members[i as int].node_id == node_id@);
                    lemma_first_member(self@.members, node_id@, i as int);
                }
                return Some(&self.members[i]);
            }
            proof {
                assert(self@.members[i as int] == self.members@[i as int]@);
            }
            i = i + 1;
        }
        None
    }

    /// The member that owns a key.
    pub fn owner(&self, key: &[u8]) -> (r: Result<&Member, TopologyError>)
        requires
            self@.placeable(),
        ensures
            ({
                let id = self@.owner_id(self@.key_token(key@));
                &&& r is Ok == self@.is_member(id)
                &&& r matches Ok(m) ==> m.node_id@ == id && *m == self.members@[first_member(
                    self@.members,
                    id,
                )]
                &&& r matches Err(e) ==> e matches TopologyError::UnknownAssignedNode(n) && n@ == id
            }),
    {
        self.owner_for_token(self.key_token(key))
    }

    /// The index of the first assignment at or after a token.
    fn position_of(&self, token: u64) -> (r: usize)
        requires
            tokens_sorted(self@.assignments),
        ensures
            r == first_at_or_after(self@.assignments, token),
            r <= self.assignments@.len(),
    {
        let ghost a = self@.assignments;
        let mut low: usize = 0;
        let mut high: usize = self.assignments.len();
        while low < high
            invariant
                a == self@.assignments,
                tokens_sorted(a),
                low <= high <= a.len(),
                forall|j: int| 0 <= j < low ==> (#[trigger] a[j]).token < token,
                forall|j: int| high <= j < a.len() ==> (#[trigger] a[j]).token >= token,
            decreases high - low,
        {
            let middle = low + (high - low) / 2;
            let ghost m = middle as int;
            proof {
                assert(a[m].token == self.assignments@[m].token);
            }
            if self.assignments[middle].token < token {
                proof {
                    assert forall|j: int| 0 <= j < middle + 1 implies (#[trigger] a[j]).token
                        < token by {
                        assert(a[j].token <= a[m].token);
                    }
                }
                low = middle + 1;
            } else {
                proof {
                    assert forall|j: int| middle <= j < a.len() implies (#[trigger] a[j]).token
                        >= token by {
                        assert(a[m].token <= a[j].token);
                    }
                }
                high = middle;
            }
        }
        proof {
            assert(splits(a, token, low as int));
            lemma_splits_unique(a, token, low as int);
        }
        low
    }

    /// The member that owns a token.
    pub fn owner_for_token(&self, token: u64) -> (r: Result<&Member, TopologyError>)
        requires
            self@.placeable(),
        ensures
            ({
                let id = self@.owner_id(token);
                &&& r is Ok == self@.is_member(id)
                &&& r matches Ok(m) ==> m.node_id@ == id && *m == self.members@[first_member(
                    self@.members,
                    id,
                )]
                &&& r matches Err(e) ==> e matches TopologyError::UnknownAssignedNode(n) && n@ == id
            }),
    {
        let index = self.position_of(token);
        let owner = if index == self.assignments.len() {
            0
        } else {
            index
        };
        let assignment = &self.assignments[owner];
        proof {
            assert(assignment@ == self@.assignments[owner as int]);
        }
        match self.member(assignment.node_id.as_str()) {
            Some(member) => Ok(member),
            None => Err(TopologyError::UnknownAssignedNode(assignment.node_id.clone())),
        }
    }

    /// Tells whether tokens stand in ascending order.
    fn in_order(&self) -> (r: bool)
        ensures
            r == tokens_sorted(self@.assignments),
    {
        let ghost a = self@.assignments;
        let mut i: usize = 1;
        while i < self.assignments.len()
            invariant
                a == self@.assignments,
                a.len() == self.assignments@.len(),
                1 <= i,
                i <= a.len() || a.len() == 0,
                forall|j: int, k: int|
                    0 <= j <= k < i && k < a.len() ==> (#[trigger] a[j]).token <= (
                    #[trigger] a[k]).token,
            decreases a.len() - i,
        {
            proof {
                assert(a[i - 1].token == self.assignments@[i - 1].token);
                assert(a[i as int].token == self.assignments@[i as int].token);
            }
            if self.assignments[i - 1].token > self.assignments[i].token {
                return false;
            }
            i = i + 1;
        }
        true
    }

    /// The index of the first assignment in the list that is at or after a token, found by
    /// halving where the tokens are known to ascend.
    fn find_position(&self, token: u64, ascending: bool) -> (r: usize)
        requires
            ascending ==> tokens_sorted(self@.assignments),
        ensures
            r == first_at_or_after(self@.assignments, token),
            r <= self.assignments@.len(),
    {
        if ascending {
            return self.position_of(token);
        }
        let ghost a = self@.assignments;
        let mut i: usize = 0;
        while i < self.assignments.len() && self.assignments[i].token < token
            invariant
                a == self@.assignments,
                a.len() == self.assignments@.len(),
                i <= a.len(),
                forall|j: int| 0 <= j < i ==> (#[trigger] a[j]).token < token,
            decreases a.len() - i,
        {
            proof {
                assert(a[i as int].token == self.assignments@[i as int].token);
            }
            i = i + 1;
        }
        proof {
            if i < a.len() {
                assert(a[i as int].token == self.assignments@[i as int].token);
            }
            assert(leads(a, token, i as int));
            lemma_leads_unique(a, token, i as int);
        }
        i
    }

    /// The nodes that hold a token, its owner first.
    pub fn replica_node_ids_for_token(&self, token: u64) -> (r: Result<Vec<&str>, TopologyError>)
        requires
            self@.placeable(),
        ensures
            r is Ok,
            strs(r->Ok_0@) == self@.replicas(token),
            r->Ok_0@.len() > 0,
    {
        self.find_holders(token, true)
    }

    fn find_holders(&self, token: u64, ascending: bool) -> (r: Result<Vec<&str>, TopologyError>)
        requires
            self@.assignments.len() > 0,
            ascending ==> tokens_sorted(self@.assignments),
        ensures
            r is Ok,
            strs(r->Ok_0@) == self@.replicas(token),
            r->Ok_0@.len() > 0,
    {
        let ghost a = self@.assignments;
        let index = self.find_position(token, ascending);
        let start = if index == self.assignments.len() {
            0
        } else {
            index
        };
        let desired = self.desired_replication_factor as usize;
        let count = self.assignments.len();
        let limit = if desired == 0 || self.members.len() == 0 {
            count
        } else if desired < self.members.len() {
            desired
        } else {
            self.members.len()
        };
        let mut replicas: Vec<&str> = Vec::new();
        let mut offset: usize = 0;
        proof {
            assert(start == owner_index(a, token));
            assert(limit == replica_limit(
                self.desired_replication_factor,
                self.members@.len(),
                a.len(),
            ));
            assert(strs(replicas@) =~= walk(a, start as int, 0, limit as nat));
        }
        while offset < count && replicas.len() < limit
            invariant
                a == self@.assignments,
                count == self.assignments@.len(),
                count == a.len(),
                start < count,
                offset <= count,
                strs(replicas@) == walk(a, start as int, offset as nat, limit as nat),
            decreases count - offset,
        {
            let at = if offset < count - start {
                start + offset
            } else {
                offset - (count - start)
            };
            let node_id = self.assignments[at].node_id.as_str();
            proof {
                assert(at == clockwise(a.len(), start as int, offset as int));
                assert(a[at as int] == self.assignments@[at as int]@);
            }
            let ghost before = replicas@;
            if !strs_have(&replicas, node_id) {
                replicas.push(node_id);
                proof {
                    assert(strs(replicas@) =~= strs(before).push(node_id@));
                }
            }
            offset = offset + 1;
        }
        proof {
            lemma_walk_stops(a, start as int, offset as nat, count as nat, limit as nat);
            lemma_replicas(
                a,
                self.desired_replication_factor,
                self.members@.len(),
                token,
            );
            assert(strs(replicas@).len() == replicas@.len());
        }
        if replicas.len() == 0 {
            return Err(TopologyError::NoAssignments);
        }
        Ok(replicas)
    }

    /// The intervals between neighbouring tokens, with the nodes that hold each.
    pub fn derived_ranges(&self) -> (r: Result<Vec<DerivedRange>, TopologyError>)
        ensures
            self.assignments@.len() == 0 ==> r == Err::<Vec<DerivedRange>, TopologyError>(
                TopologyError::NoAssignments,
            ),
            self.assignments@.len() > 0 ==> r is Ok && range_views(r->Ok_0@) == self@.ranges(),
    {
        if self.assignments.len() == 0 {
            return Err(TopologyError::NoAssignments);
        }
        let ascending = self.in_order();
        let ends = self.boundaries();
        let ghost a = self@.assignments;
        proof {
            lemma_some_boundary(a, a.len());
        }
        let ghost desired = self.desired_replication_factor;
        let ghost member_count = self.members@.len();
        let mut previous = ends[ends.len() - 1];
        let mut ranges: Vec<DerivedRange> = Vec::new();
        let mut i: usize = 0;
        while i < ends.len()
            invariant
                a == self@.assignments,
                ascending ==> tokens_sorted(a),
                a.len() > 0,
                a.len() == self.assignments@.len(),
                desired == self.desired_replication_factor,
                member_count == self.members@.len(),
                ends@ == boundaries(a, a.len()),
                ends@.len() > 0,
                i <= ends@.len(),
                i < ends@.len() ==> previous == crate::ring::previous_boundary(ends@, i as int),
                ranges@.len() == i,
                forall|j: int|
                    0 <= j < i ==> (#[trigger] ranges@[j])@ == range_at(
                        a,
                        desired,
                        member_count,
                        ends@,
                        j,
                    ),
            decreases ends.len() - i,
        {
            let end = ends[i];
            let replicas = match self.find_holders(end, ascending) {
                Ok(replicas) => replicas,
                Err(e) => return Err(e),
            };
            let range = DerivedRange {
                start_exclusive: previous,
                end_inclusive: end,
                owner_node_id: replicas[0].to_owned(),
                follower_node_ids: own_from(&replicas, 1),
            };
            proof {
                assert(strs(replicas@)[0] == replicas@[0]@);
                assert(range@ =~= range_at(a, desired, member_count, ends@, i as int));
            }
            ranges.push(range);
            previous = end;
            i = i + 1;
        }
        proof {
            assert(range_views(ranges@) =~= self@.ranges());
        }
        Ok(ranges)
    }

    /// The tokens without repetitions.
    pub fn boundaries(&self) -> (r: Vec<u64>)
        ensures
            r@ == boundaries(self@.assignments, self.assignments@.len()),
    {
        let ghost a = self@.assignments;
        let mut r: Vec<u64> = Vec::new();
        let mut i: usize = 0;
        while i < self.assignments.len()
            invariant
                a == self@.assignments,
                a.len() == self.assignments@.len(),
                i <= self.assignments@.len(),
                r@ == boundaries(a, i as nat),
            decreases self.assignments.len() - i,
        {
            let token = self.assignments[i].token;
            proof {
                assert(a[i as int].token == token);
                if i > 0 {
                    assert(a[i - 1].token == self.assignments@[i - 1].token);
                }
            }
            if i == 0 || self.assignments[i - 1].token != token {
                r.push(token);
            }
            i = i + 1;
        }
        r
    }
}

/// The views of a list of ranges.
pub open spec fn range_views(ranges: Seq<DerivedRange>) -> Seq<RangeView> {
    Seq::new(ranges.len(), |i: int| ranges[i]@)
}

proof fn lemma_walk_stops(a: Seq<AssignmentView>, start: int, n: nat, m: nat, limit: nat)
    requires
        n <= m,
        n == m || walk(a, start, n, limit).len() >= limit,
    ensures
        walk(a, start, m, limit) == walk(a, start, n, limit),
    decreases m,
{
    if n < m {
        lemma_walk_stops(a, start, n, (m - 1) as nat, limit);
    }
}

impl Clone for TopologySnapshot {
    fn clone(&self) -> (r: Self)
        ensures
            r@ == self@,
    {
        let mut assignments: Vec<TokenAssignment> = Vec::new();
        let mut i: usize = 0;
        while i < self.assignments.len()
            invariant
                i <= self.assignments.len(),
                assignments@ == self.assignments@.subrange(0, i as int),
            decreases self.assignments.len() - i,
        {
            assignments.push(self.assignments[i].clone());
            i = i + 1;
            proof {
                assert(assignments@ =~= self.assignments@.subrange(0, i as int));
            }
        }
        let r = TopologySnapshot {
            epoch: self.epoch,
            hash_seed: self.hash_seed,
            hash_algorithm: self.hash_algorithm.clone(),
            encoding_version: self.encoding_version,
            virtual_nodes: self.virtual_nodes,
            desired_replication_factor: self.desired_replication_factor,
            write_ack_policy: self.write_ack_policy,
            write_availability_guard: self.write_availability_guard,
            members: copy_members(&self.members),
            assignments: assignments,
            digest: self.digest.clone(),
        };
        proof {
            assert(assignments@ =~= self.assignments@);
            assert(r@ =~= self@);
        }
        r
    }
}

impl crate::views::Duplicate for TopologySnapshot {
    fn duplicate(&self) -> (r: Self) {
        self.clone()
    }
}

impl TopologySnapshot {
    /// Tells whether two snapshots are equal.
    pub fn same(&self, other: &TopologySnapshot) -> (r: bool)
        ensures
            r == (self@ == other@),
    {
        self.epoch == other.epoch && self.hash_seed == other.hash_seed && same_text(
            self.hash_algorithm.as_str(),
            other.hash_algorithm.as_str(),
        ) && self.encoding_version == other.encoding_version && self.virtual_nodes
            == other.virtual_nodes && self.desired_replication_factor
            == other.desired_replication_factor && self.write_ack_policy == other.write_ack_policy
            && self.write_availability_guard == other.write_availability_guard && same_members(
            &self.members,
            &other.members,
        ) && same_assignments(&self.assignments, &other.assignments) && same_text(
            self.digest.as_str(),
            other.digest.as_str(),
        )
    }
}

/// What a refusal says.
pub open spec fn topology_error_text(e: TopologyError) -> Seq<char> {
    match e {
        TopologyError::NoMembers => "a topology must contain at least one member"@,
        TopologyError::NoVirtualNodes => "virtual node count must be greater than zero"@,
        TopologyError::TooManyMembers => "member count exceeds "@ + decimal_text(1_024) + ""@,
        TopologyError::TooManyVirtualNodes => "virtual node count exceeds "@ + decimal_text(4_096)
            + ""@,
        TopologyError::TooManyAssignments => "token assignment count exceeds "@ + decimal_text(
            1_048_576,
        ) + ""@,
        TopologyError::EmptyNodeId => "node id must not be empty"@,
        TopologyError::NodeIdTooLong => "node id exceeds "@ + decimal_text(32) + " bytes"@,
        TopologyError::EmptyEndpoint => "endpoint must not be empty"@,
        TopologyError::EndpointTooLong => "endpoint exceeds "@ + decimal_text(256) + " bytes"@,
        TopologyError::DuplicateNodeId(id) => "duplicate node id: "@ + id@,
        TopologyError::DuplicateEndpoint(endpoint) => "duplicate endpoint: "@ + endpoint@,
        TopologyError::NoAssignments => "topology has no token assignments"@,
        TopologyError::UnsupportedHashConfiguration { algorithm, encoding_version } =>
            "unsupported hash configuration: "@ + algorithm@ + (", encoding version "@
            + decimal_text(encoding_version as nat) + ""@),
        TopologyError::DigestMismatch => "topology digest mismatch"@,
        TopologyError::NonCanonical => "members or token assignments are not in canonical form"@,
        TopologyError::UnknownAssignedNode(id) => "token assignment references unknown node: "@
            + id@,
        TopologyError::NoReplicas => "desired replication factor must be greater than zero"@,
        TopologyError::TooManyReplicas => "desired replication factor exceeds "@ + decimal_text(
            1_024,
        ) + ""@,
        TopologyError::FirstSuccessorRequiresFollower =>
            "FirstSuccessor requires a desired replication factor of at least two"@,
        TopologyError::NoMinimumAdmittedCopies =>
            "minimum admitted copies must be greater than zero"@,
        TopologyError::NoMaximumReplicaLag => "maximum replica lag must be greater than zero"@,
        TopologyError::MinimumAdmittedCopiesExceedReplicationFactor =>
            "minimum admitted copies exceeds the desired replication factor"@,
        TopologyError::MinimumHealthyFollowersExceedReplicationFactor =>
            "minimum healthy followers exceeds the desired follower count"@,
        TopologyError::UnknownWriteAckPolicy(value) =>
            "unknown write acknowledgement policy: "@ + signed_text(value as int),
    }
}

impl TopologyError {
    /// What the refusal says.
    pub fn message(&self) -> (r: String)
        ensures
            r@ == topology_error_text(*self),
    {
        match self {
            TopologyError::NoMembers => owned("a topology must contain at least one member"),
            TopologyError::NoVirtualNodes => owned("virtual node count must be greater than zero"),
            TopologyError::TooManyMembers => around_number("member count exceeds ", 1_024, ""),
            TopologyError::TooManyVirtualNodes => around_number(
                "virtual node count exceeds ",
                4_096,
                "",
            ),
            TopologyError::TooManyAssignments => around_number(
                "token assignment count exceeds ",
                1_048_576,
                "",
            ),
            TopologyError::EmptyNodeId => owned("node id must not be empty"),
            TopologyError::NodeIdTooLong => around_number("node id exceeds ", 32, " bytes"),
            TopologyError::EmptyEndpoint => owned("endpoint must not be empty"),
            TopologyError::EndpointTooLong => around_number("endpoint exceeds ", 256, " bytes"),
            TopologyError::DuplicateNodeId(id) => joined("duplicate node id: ", id.as_str()),
            TopologyError::DuplicateEndpoint(endpoint) => joined(
                "duplicate endpoint: ",
                endpoint.as_str(),
            ),
            TopologyError::NoAssignments => owned("topology has no token assignments"),
            TopologyError::UnsupportedHashConfiguration { algorithm, encoding_version } => {
                let start = joined("unsupported hash configuration: ", algorithm.as_str());
                let end = around_number(", encoding version ", *encoding_version as u64, "");
                joined(start.as_str(), end.as_str())
            },
            TopologyError::DigestMismatch => owned("topology digest mismatch"),
            TopologyError::NonCanonical => owned(
                "members or token assignments are not in canonical form",
            ),
            TopologyError::UnknownAssignedNode(id) => joined(
                "token assignment references unknown node: ",
                id.as_str(),
            ),
            TopologyError::NoReplicas => owned(
                "desired replication factor must be greater than zero",
            ),
            TopologyError::TooManyReplicas => around_number(
                "desired replication factor exceeds ",
                1_024,
                "",
            ),
            TopologyError::FirstSuccessorRequiresFollower => owned(
                "FirstSuccessor requires a desired replication factor of at least two",
            ),
            TopologyError::NoMinimumAdmittedCopies => owned(
                "minimum admitted copies must be greater than zero",
            ),
            TopologyError::NoMaximumReplicaLag => owned(
                "maximum replica lag must be greater than zero",
            ),
            TopologyError::MinimumAdmittedCopiesExceedReplicationFactor => owned(
                "minimum admitted copies exceeds the desired replication factor",
            ),
            TopologyError::MinimumHealthyFollowersExceedReplicationFactor => owned(
                "minimum healthy followers exceeds the desired follower count",
            ),
            TopologyError::UnknownWriteAckPolicy(value) => {
                let number = signed_decimal(*value);
                joined("unknown write acknowledgement policy: ", number.as_str())
            },
        }
    }
}

} // verus!
