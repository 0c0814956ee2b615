//! What a coordinator knows of the copies of every range.
use crate::cluster::{
    AdmissionView, ClusterState, ClusterView, Place, RepairView, ReplicaAdmission, ReplicaRepair,
    ReplicaRepairPhase,
};
use crate::coverage::{ranges_of, GrantView, Grants};
use crate::errors::Status;
use crate::interval::intervals_overlap;
use crate::leases::{PeerFailure, PeerFailures, Report};
use crate::merge::{Stream, StreamKey};
use crate::migration::MigrationPhase;
use crate::node_checkpoint::ReplicationProgress;
use crate::ordmap::{entry_index, lemma_entry, shown, unique_entries, MapKey, SortedMap};
use crate::ring::{lemma_owner_index, lemma_walk, RangeView};
use crate::status::{
    lemma_tally_prefix, tally, FollowerReplicaStatus, FollowerStatusView, NodeReplicaStatus,
    NodeStatusView, RangeReplicaStatus, RangeStatusView, ReplicaStatusResponse,
};
use crate::text::{joined, owned, same_text, texts};
use crate::topology::{range_views, DerivedRange, SnapshotView, WriteAckPolicy};
use crate::views::{opt, views};
use vstd::prelude::*;

verus! {

/// How far a stream has come: its head, the follower's cursor and how long it lags.
#[derive(Clone, Copy, Debug, Eq, PartialEq, Structural)]
pub struct StreamProgress {
    pub head: u64,
    pub cursor: u64,
    pub lag_millis: u64,
}

impl View for StreamProgress {
    type V = StreamProgress;

    open spec fn view(&self) -> StreamProgress {
        *self
    }
}

/// How far streams have come, as far as it could be read.
pub type Progress = SortedMap<StreamKey, StreamProgress>;

/// How far a stream has come, from what its two ends say; nothing where one of them runs
/// another process, or where it is not known since when it lags.
pub open spec fn pair_progress(
    head: ReplicationProgress,
    applied: ReplicationProgress,
    owner_instance: Seq<char>,
    follower_instance: Seq<char>,
    unix: u64,
) -> Option<StreamProgress> {
    if head.process_instance_id@ != owner_instance || applied.process_instance_id@
        != follower_instance {
        None
    } else if applied.stream_sequence >= head.stream_sequence {
        Some(
            StreamProgress {
                head: head.stream_sequence,
                cursor: applied.stream_sequence,
                lag_millis: 0,
            },
        )
    } else if head.oldest_unacked_unix_millis == 0 {
        None
    } else {
        Some(
            StreamProgress {
                head: head.stream_sequence,
                cursor: applied.stream_sequence,
                lag_millis: if unix > head.oldest_unacked_unix_millis {
                    (unix - head.oldest_unacked_unix_millis) as u64
                } else {
                    0
                },
            },
        )
    }
}

/// Tells how far a stream has come, from what its two ends say.
pub fn read_replication_pair(
    head: &ReplicationProgress,
    applied: &ReplicationProgress,
    owner_instance: &String,
    follower_instance: &String,
    unix: u64,
) -> (r: Option<StreamProgress>)
    ensures
        r == pair_progress(*head, *applied, owner_instance@, follower_instance@, unix),
{
    if !same_text(head.process_instance_id.as_str(), owner_instance.as_str()) || !same_text(
        applied.process_instance_id.as_str(),
        follower_instance.as_str(),
    ) {
        return None;
    }
    let lag = if applied.stream_sequence >= head.stream_sequence {
        0
    } else {
        let last = head.oldest_unacked_unix_millis;
        if last == 0 {
            return None;
        }
        unix.saturating_sub(last)
    };
    Some(
        StreamProgress {
            head: head.stream_sequence,
            cursor: applied.stream_sequence,
            lag_millis: lag,
        },
    )
}

/// The last of the first `n` admissions at a place.
pub open spec fn admission_at(list: Seq<AdmissionView>, place: Place, n: nat) -> Option<
    AdmissionView,
>
    decreases n,
{
    if n == 0 {
        None
    } else if list[n - 1].place() == place {
        Some(list[n - 1])
    } else {
        admission_at(list, place, (n - 1) as nat)
    }
}

/// The last of the first `n` repairs at a place.
pub open spec fn repair_at(list: Seq<RepairView>, place: Place, n: nat) -> Option<RepairView>
    decreases n,
{
    if n == 0 {
        None
    } else if list[n - 1].place() == place {
        Some(list[n - 1])
    } else {
        repair_at(list, place, (n - 1) as nat)
    }
}

/// Where a follower of a range stands.
pub open spec fn follower_place(range: RangeView, node: Seq<char>) -> Place {
    (range.start_exclusive, (range.end_inclusive, (range.owner_node_id, node)))
}

/// The name of the phase of a repair.
pub open spec fn repair_phase_name(phase: ReplicaRepairPhase) -> Seq<char> {
    match phase {
        ReplicaRepairPhase::Pending => "Pending"@,
        ReplicaRepairPhase::Copying => "Copying"@,
        ReplicaRepairPhase::Verifying => "Verifying"@,
        ReplicaRepairPhase::Complete => "Complete"@,
    }
}

fn name_repair_phase(phase: ReplicaRepairPhase) -> (r: String)
    ensures
        r@ == repair_phase_name(phase),
{
    match phase {
        ReplicaRepairPhase::Pending => owned("Pending"),
        ReplicaRepairPhase::Copying => owned("Copying"),
        ReplicaRepairPhase::Verifying => owned("Verifying"),
        ReplicaRepairPhase::Complete => owned("Complete"),
    }
}

impl ClusterView {
    /// The admission of a follower, if the process that it names is running and not fenced.
    pub open spec fn standing_admission(self, range: RangeView, node: Seq<char>) -> Option<
        AdmissionView,
    > {
        match admission_at(
            self.replica_admissions,
            follower_place(range, node),
            self.replica_admissions.len(),
        ) {
            Some(a) => if self.runs(node, a.process_instance_id) && !self.fenced_nodes.contains(
                node,
            ) {
                Some(a)
            } else {
                None
            },
            None => None,
        }
    }

    /// What is known of a follower of a range.
    #[verifier::opaque]
    pub open spec fn follower_status(
        self,
        grants: Map<Seq<char>, GrantView>,
        progress: Map<Stream, StreamProgress>,
        range: RangeView,
        node: Seq<char>,
        now: u64,
    ) -> FollowerStatusView {
        let admission = self.standing_admission(range, node);
        let repair = repair_at(
            self.replica_repairs,
            follower_place(range, node),
            self.replica_repairs.len(),
        );
        let live = progress.contains_key((range.owner_node_id, node));
        let p = progress[(range.owner_node_id, node)];
        let leased = self.has_lease(grants, node, now);
        FollowerStatusView {
            node_id: node,
            admitted: admission is Some,
            process_instance_id: if admission is Some {
                admission->0.process_instance_id
            } else {
                Seq::empty()
            },
            verified_watermark: if admission is Some {
                admission->0.verified_watermark
            } else {
                0
            },
            stream_cursor: if live {
                p.cursor
            } else if admission is Some {
                admission->0.stream_cursor
            } else {
                0
            },
            lag_millis: if live {
                p.lag_millis
            } else {
                0
            },
            lag_known: live,
            stream_head: if live {
                p.head
            } else {
                0
            },
            repair_state: if repair is Some {
                repair_phase_name(repair->0.phase)
            } else {
                Seq::empty()
            },
            leased: leased,
            healthy: admission is Some && leased && live && p.lag_millis
                <= self.committed.write_availability_guard.max_replica_lag_millis,
            repair_retry_count: if repair is Some {
                repair->0.retry_count
            } else {
                0
            },
            repair_next_attempt_unix_millis: if repair is Some {
                repair->0.next_attempt_unix_millis
            } else {
                0
            },
            repair_last_error: if repair is Some {
                repair->0.last_error
            } else {
                Seq::empty()
            },
        }
    }

    /// What is known of every follower of a range.
    pub open spec fn follower_statuses(
        self,
        grants: Map<Seq<char>, GrantView>,
        progress: Map<Stream, StreamProgress>,
        range: RangeView,
        now: u64,
    ) -> Seq<FollowerStatusView> {
        Seq::new(
            range.follower_node_ids.len(),
            |i: int|
                self.follower_status(grants, progress, range, range.follower_node_ids[i], now),
        )
    }
}

pub open spec fn counts_as_admitted() -> spec_fn(FollowerStatusView) -> bool {
    |f: FollowerStatusView| f.admitted
}

pub open spec fn counts_as_healthy() -> spec_fn(FollowerStatusView) -> bool {
    |f: FollowerStatusView| f.healthy
}

pub open spec fn counts_as_live() -> spec_fn(FollowerStatusView) -> bool {
    |f: FollowerStatusView| f.admitted && f.leased
}

/// A node is healthy, as far as is known.
pub open spec fn known_healthy(followers: Seq<FollowerStatusView>, node: Seq<char>) -> bool {
    exists|i: int|
        0 <= i < followers.len() && (#[trigger] followers[i]).node_id == node
            && followers[i].healthy
}

/// The first of these nodes, from `i` up to `n`, that is not known to be healthy.
pub open spec fn first_unhealthy(
    nodes: Seq<Seq<char>>,
    followers: Seq<FollowerStatusView>,
    n: nat,
    i: nat,
) -> Option<Seq<char>>
    decreases n - i,
{
    if i >= n {
        None
    } else if !known_healthy(followers, nodes[i as int]) {
        Some(nodes[i as int])
    } else {
        first_unhealthy(nodes, followers, n, i + 1)
    }
}

/// How many followers of a range its topology waits for by name.
pub open spec fn named_followers(policy: WriteAckPolicy, n: nat) -> nat {
    match policy {
        WriteAckPolicy::OwnerOnly => 0,
        WriteAckPolicy::FirstSuccessor => if n < 1 {
            n
        } else {
            1
        },
        WriteAckPolicy::AllReplicas => n,
    }
}

impl ClusterView {
    /// Writes to a range may be held back by the change under way.
    pub open spec fn cutting_over(self, range: RangeView) -> bool {
        self.active_change is Some && ({
            let change = self.active_change->0;
            &&& change.phase is PausingWrites || change.phase is Verifying
                || change.phase is ReadyToPublish
            &&& change.target_topology.write_ack_policy != self.committed.write_ack_policy
                || exists|i: int|
                0 <= i < change.ranges.len() && crate::interval::overlap(
                    range.start_exclusive,
                    range.end_inclusive,
                    (#[trigger] change.ranges[i]).start_exclusive,
                    change.ranges[i].end_inclusive,
                )
        })
    }

    /// Why a range cannot be written to; nothing where it can.
    pub open spec fn block_reason(
        self,
        range: RangeView,
        followers: Seq<FollowerStatusView>,
        owner_leased: bool,
    ) -> Seq<char> {
        let guard = self.committed.write_availability_guard;
        let policy = self.committed.write_ack_policy;
        let n = range.follower_node_ids.len();
        let missing = first_unhealthy(
            range.follower_node_ids,
            followers,
            named_followers(policy, n),
            0,
        );
        if self.awaits_activation() {
            if self.recovery_block_reason.len() == 0 {
                "topology activation pending"@
            } else {
                self.recovery_block_reason
            }
        } else if self.cutting_over(range) {
            "topology cutover write fence may be active"@
        } else if !owner_leased {
            "owner lease unavailable"@
        } else if policy == WriteAckPolicy::FirstSuccessor && n == 0 {
            "first successor is not in desired placement"@
        } else if policy == WriteAckPolicy::AllReplicas && n + 1
            < self.committed.desired_replication_factor {
            "complete desired replication factor is unavailable"@
        } else if tally(followers, counts_as_admitted()) + 1 < guard.minimum_admitted_copies
            || tally(followers, counts_as_healthy()) < guard.minimum_healthy_followers {
            "minimum admitted-copy or healthy-follower guard is not satisfied"@
        } else if missing is Some {
            "required follower "@ + missing->0 + " is not healthy and admitted"@
        } else {
            Seq::empty()
        }
    }

    /// What is known of the copies of a range.
    pub open spec fn range_status(
        self,
        grants: Map<Seq<char>, GrantView>,
        progress: Map<Stream, StreamProgress>,
        range: RangeView,
        now: u64,
    ) -> RangeStatusView {
        let followers = self.follower_statuses(grants, progress, range, now);
        let owner_leased = self.has_lease(grants, range.owner_node_id, now);
        let present = self.process_instances.contains_key(range.owner_node_id)
            && !self.fenced_nodes.contains(range.owner_node_id);
        let live_rf = tally(followers, counts_as_live()) + if owner_leased {
            1nat
        } else {
            0
        };
        let reason = self.block_reason(range, followers, owner_leased);
        RangeStatusView {
            start_exclusive: range.start_exclusive,
            end_inclusive: range.end_inclusive,
            owner_node_id: range.owner_node_id,
            desired_rf: self.committed.desired_replication_factor,
            current_rf: (tally(followers, counts_as_admitted()) + if present {
                1nat
            } else {
                0
            }) as u32,
            followers: followers,
            owner_leased: owner_leased,
            live_rf: live_rf as u32,
            writable: reason.len() == 0,
            write_block_reason: reason,
            under_replicated: live_rf < self.committed.desired_replication_factor,
            repairing: exists|i: int|
                0 <= i < followers.len() && (!(#[trigger] followers[i]).admitted
                    || followers[i].repair_state != "Complete"@),
        }
    }

    /// What is known of a member.
    pub open spec fn node_status(
        self,
        grants: Map<Seq<char>, GrantView>,
        failures: Map<Report, PeerFailure>,
        node: Seq<char>,
        now: u64,
    ) -> NodeStatusView {
        NodeStatusView {
            node_id: node,
            process_instance_id: if self.process_instances.contains_key(node) {
                self.process_instances[node]
            } else {
                Seq::empty()
            },
            leased: self.has_lease(grants, node, now),
            lease_expires_unix_millis: if grants.contains_key(node) {
                grants[node].expires_unix_millis
            } else {
                0
            },
            last_renewal_unix_millis: if grants.contains_key(node) {
                grants[node].last_renewal_unix_millis
            } else {
                0
            },
            suspected: exists|k: Report| #[trigger] failures.contains_key(k) && k.0 == node,
        }
    }
}

proof fn lemma_follower_bound(t: SnapshotView, i: int)
    requires
        t.assignments.len() > 0,
        0 <= i < t.ranges().len(),
    ensures
        t.ranges()[i].follower_node_ids.len() < t.assignments.len(),
{
    let a = t.assignments;
    let b = crate::ring::boundaries(a, a.len());
    let limit = crate::ring::replica_limit(
        t.desired_replication_factor,
        t.members.len(),
        a.len(),
    );
    lemma_owner_index(a, b[i]);
    lemma_walk(a, crate::ring::owner_index(a, b[i]), a.len(), limit);
    crate::ring::lemma_replicas(a, t.desired_replication_factor, t.members.len(), b[i]);
}

fn count_admitted(list: &Vec<FollowerReplicaStatus>) -> (r: u32)
    requires
        list@.len() < u32::MAX,
    ensures
        r == tally(views(list@), counts_as_admitted()),
        r <= list@.len(),
{
    let ghost s = views(list@);
    let ghost p = counts_as_admitted();
    let mut n: u32 = 0;
    let mut i: usize = 0;
    proof {
        assert(s.subrange(0, 0) =~= Seq::empty());
    }
    while i < list.len()
        invariant
            s == views(list@),
            p == counts_as_admitted(),
            list@.len() < u32::MAX,
            n <= i <= list@.len(),
            n == tally(s.subrange(0, i as int), p),
        decreases list.len() - i,
    {
        proof {
            assert(s[i as int] == list@[i as int]@);
            lemma_tally_prefix(s, i as int, p);
        }
        if list[i].admitted {
            n = n + 1;
        }
        i = i + 1;
    }
    proof {
        assert(s.subrange(0, s.len() as int) =~= s);
    }
    n
}

fn count_healthy(list: &Vec<FollowerReplicaStatus>) -> (r: u32)
    requires
        list@.len() < u32::MAX,
    ensures
        r == tally(views(list@), counts_as_healthy()),
{
    let ghost s = views(list@);
    let ghost p = counts_as_healthy();
    let mut n: u32 = 0;
    let mut i: usize = 0;
    proof {
        assert(s.subrange(0, 0) =~= Seq::empty());
    }
    while i < list.len()
        invariant
            s == views(list@),
            p == counts_as_healthy(),
            list@.len() < u32::MAX,
            n <= i <= list@.len(),
            n == tally(s.subrange(0, i as int), p),
        decreases list.len() - i,
    {
        proof {
            assert(s[i as int] == list@[i as int]@);
            lemma_tally_prefix(s, i as int, p);
        }
        if list[i].healthy {
            n = n + 1;
        }
        i = i + 1;
    }
    proof {
        assert(s.subrange(0, s.len() as int) =~= s);
    }
    n
}

fn count_live(list: &Vec<FollowerReplicaStatus>) -> (r: u32)
    requires
        list@.len() < u32::MAX,
    ensures
        r == tally(views(list@), counts_as_live()),
        r <= list@.len(),
{
    let ghost s = views(list@);
    let ghost p = counts_as_live();
    let mut n: u32 = 0;
    let mut i: usize = 0;
    proof {
        assert(s.subrange(0, 0) =~= Seq::empty());
    }
    while i < list.len()
        invariant
            s == views(list@),
            p == counts_as_live(),
            list@.len() < u32::MAX,
            n <= i <= list@.len(),
            n == tally(s.subrange(0, i as int), p),
        decreases list.len() - i,
    {
        proof {
            assert(s[i as int] == list@[i as int]@);
            lemma_tally_prefix(s, i as int, p);
        }
        if list[i].admitted && list[i].leased {
            n = n + 1;
        }
        i = i + 1;
    }
    proof {
        assert(s.subrange(0, s.len() as int) =~= s);
    }
    n
}

fn is_known_healthy(list: &Vec<FollowerReplicaStatus>, node: &String) -> (r: bool)
    ensures
        r == known_healthy(views(list@), node@),
{
    let ghost s = views(list@);
    let mut i: usize = 0;
    while i < list.len()
        invariant
            s == views(list@),
            i <= list@.len(),
            forall|j: int| 0 <= j < i ==> !((#[trigger] s[j]).node_id == node@ && s[j].healthy),
        decreases list.len() - i,
    {
        proof {
            assert(s[i as int] == list@[i as int]@);
        }
        if list[i].healthy && same_text(list[i].node_id.as_str(), node.as_str()) {
            return true;
        }
        i = i + 1;
    }
    false
}

fn find_unhealthy(nodes: &Vec<String>, list: &Vec<FollowerReplicaStatus>, count: usize) -> (r: Option<
    String,
>)
    requires
        count <= nodes@.len(),
    ensures
        opt(r) == first_unhealthy(texts(nodes@), views(list@), count as nat, 0),
{
    let ghost q = texts(nodes@);
    let ghost s = views(list@);
    let mut i: usize = 0;
    while i < count
        invariant
            q == texts(nodes@),
            s == views(list@),
            i <= count <= nodes@.len(),
            first_unhealthy(q, s, count as nat, 0) == first_unhealthy(q, s, count as nat, i as nat),
        decreases count - i,
    {
        proof {
            assert(q[i as int] == nodes@[i as int]@);
        }
        if !is_known_healthy(list, &nodes[i]) {
            return Some(nodes[i].clone());
        }
        i = i + 1;
    }
    None
}

impl ClusterState {
    fn admission_at(&self, range: &DerivedRange, node: &String) -> (r: Option<&ReplicaAdmission>)
        ensures
            match r {
                Some(a) => admission_at(
                    self@.replica_admissions,
                    follower_place(range@, node@),
                    self@.replica_admissions.len(),
                ) == Some(a@),
                None => admission_at(
                    self@.replica_admissions,
                    follower_place(range@, node@),
                    self@.replica_admissions.len(),
                ) is None,
            },
    {
        let ghost s = self@.replica_admissions;
        let ghost place = follower_place(range@, node@);
        let mut i: usize = self.replica_admissions.len();
        while i > 0
            invariant
                s == views(self.replica_admissions@),
                s == self@.replica_admissions,
                place == follower_place(range@, node@),
                i <= self.replica_admissions@.len(),
                admission_at(s, place, s.len()) == admission_at(s, place, i as nat),
            decreases i,
        {
            let a = &self.replica_admissions[i - 1];
            proof {
                assert(s[i - 1] == a@);
            }
            if a.start_exclusive == range.start_exclusive && a.end_inclusive == range.end_inclusive
                && same_text(a.owner_node_id.as_str(), range.owner_node_id.as_str()) && same_text(
                a.node_id.as_str(),
                node.as_str(),
            ) {
                return Some(a);
            }
            i = i - 1;
        }
        None
    }

    fn repair_at(&self, range: &DerivedRange, node: &String) -> (r: Option<&ReplicaRepair>)
        ensures
            match r {
                Some(a) => repair_at(
                    self@.replica_repairs,
                    follower_place(range@, node@),
                    self@.replica_repairs.len(),
                ) == Some(a@),
                None => repair_at(
                    self@.replica_repairs,
                    follower_place(range@, node@),
                    self@.replica_repairs.len(),
                ) is None,
            },
    {
        let ghost s = self@.replica_repairs;
        let ghost place = follower_place(range@, node@);
        let mut i: usize = self.replica_repairs.len();
        while i > 0
            invariant
                s == views(self.replica_repairs@),
                s == self@.replica_repairs,
                place == follower_place(range@, node@),
                i <= self.replica_repairs@.len(),
                repair_at(s, place, s.len()) == repair_at(s, place, i as nat),
            decreases i,
        {
            let a = &self.replica_repairs[i - 1];
            proof {
                assert(s[i - 1] == a@);
            }
            if a.start_exclusive == range.start_exclusive && a.end_inclusive == range.end_inclusive
                && same_text(a.owner_node_id.as_str(), range.owner_node_id.as_str()) && same_text(
                a.node_id.as_str(),
                node.as_str(),
            ) {
                return Some(a);
            }
            i = i - 1;
        }
        None
    }

    fn follower_status(
        &self,
        grants: &Grants,
        progress: &Progress,
        range: &DerivedRange,
        node: &String,
        now: u64,
    ) -> (r: FollowerReplicaStatus)
        ensures
            r@ == self@.follower_status(shown(*grants), shown(*progress), range@, node@, now),
    {
        let mut status = FollowerReplicaStatus::unknown(node.clone());
        if let Some(a) = self.admission_at(range, node) {
            if self.node_runs(node, a.process_instance_id.as_str()) && !self.fenced_nodes.contains(
                node,
            ) {
                status.admitted = true;
                status.process_instance_id = a.process_instance_id.clone();
                status.verified_watermark = a.verified_watermark;
                status.stream_cursor = a.stream_cursor;
            }
        }
        let key: StreamKey = (range.owner_node_id.clone(), node.clone());
        proof {
            assert(key.id() == (range.owner_node_id@, node@));
        }
        if let Some(p) = progress.get(&key) {
            status.stream_cursor = p.cursor;
            status.lag_millis = p.lag_millis;
            status.lag_known = true;
            status.stream_head = p.head;
        }
        if let Some(repair) = self.repair_at(range, node) {
            status.repair_state = name_repair_phase(repair.phase);
            status.repair_retry_count = repair.retry_count;
            status.repair_next_attempt_unix_millis = repair.next_attempt_unix_millis;
            status.repair_last_error = repair.last_error.clone();
        }
        status.leased = self.node_has_lease(grants, node, now);
        status.healthy = status.admitted && status.leased && status.lag_known && status.lag_millis
            <= self.committed.write_availability_guard.max_replica_lag_millis;
        proof {
            reveal(ClusterView::follower_status);
            assert(status@ =~= self@.follower_status(
                shown(*grants),
                shown(*progress),
                range@,
                node@,
                now,
            ));
        }
        status
    }

    fn follower_statuses(
        &self,
        grants: &Grants,
        progress: &Progress,
        range: &DerivedRange,
        now: u64,
    ) -> (r: Vec<FollowerReplicaStatus>)
        ensures
            views(r@) == self@.follower_statuses(shown(*grants), shown(*progress), range@, now),
    {
        let ghost whole = self@.follower_statuses(shown(*grants), shown(*progress), range@, now);
        let mut r: Vec<FollowerReplicaStatus> = Vec::new();
        let mut i: usize = 0;
        while i < range.follower_node_ids.len()
            invariant
                whole == self@.follower_statuses(shown(*grants), shown(*progress), range@, now),
                range@.follower_node_ids == texts(range.follower_node_ids@),
                i <= range.follower_node_ids@.len(),
                r@.len() == i,
                forall|j: int| 0 <= j < i ==> (#[trigger] r@[j])@ == whole[j],
            decreases range.follower_node_ids.len() - i,
        {
            proof {
                assert(range@.follower_node_ids[i as int] == range.follower_node_ids@[i as int]@);
            }
            r.push(self.follower_status(grants, progress, range, &range.follower_node_ids[i], now));
            i = i + 1;
        }
        proof {
            assert(views(r@) =~= whole);
        }
        r
    }

    fn is_cutting_over(&self, range: &DerivedRange) -> (r: bool)
        ensures
            r == self@.cutting_over(range@),
    {
        let change = match &self.active_change {
            Some(change) => change,
            None => return false,
        };
        if change.phase != MigrationPhase::PausingWrites && change.phase
            != MigrationPhase::Verifying && change.phase != MigrationPhase::ReadyToPublish {
            return false;
        }
        if change.target_topology.write_ack_policy != self.committed.write_ack_policy {
            return true;
        }
        let ghost s = change@.ranges;
        let mut i: usize = 0;
        while i < change.ranges.len()
            invariant
                s == change@.ranges,
                s == views(change.ranges@),
                i <= change.ranges@.len(),
                forall|j: int|
                    0 <= j < i ==> !crate::interval::overlap(
                        range@.start_exclusive,
                        range@.end_inclusive,
                        (#[trigger] s[j]).start_exclusive,
                        s[j].end_inclusive,
                    ),
                self@.active_change == Some(change@),
                change.phase is PausingWrites || change.phase is Verifying
                    || change.phase is ReadyToPublish,
            decreases change.ranges.len() - i,
        {
            proof {
                assert(s[i as int] == change.ranges@[i as int]@);
            }
            if intervals_overlap(
                range.start_exclusive,
                range.end_inclusive,
                change.ranges[i].start_exclusive,
                change.ranges[i].end_inclusive,
            ) {
                return true;
            }
            i = i + 1;
        }
        false
    }

    fn block_reason(
        &self,
        range: &DerivedRange,
        followers: &Vec<FollowerReplicaStatus>,
        owner_leased: bool,
    ) -> (r: String)
        requires
            followers@.len() < u32::MAX,
            range.follower_node_ids@.len() < u32::MAX,
        ensures
            r@ == self@.block_reason(range@, views(followers@), owner_leased),
    {
        let guard = &self.committed.write_availability_guard;
        let policy = self.committed.write_ack_policy;
        let n = range.follower_node_ids.len();
        proof {
            assert(range@.follower_node_ids.len() == n);
        }
        if self.awaits_activation() {
            if self.recovery_block_reason.as_str().is_empty() {
                return owned("topology activation pending");
            }
            return self.recovery_block_reason.clone();
        }
        if self.is_cutting_over(range) {
            return owned("topology cutover write fence may be active");
        }
        if !owner_leased {
            return owned("owner lease unavailable");
        }
        if policy == WriteAckPolicy::FirstSuccessor && n == 0 {
            return owned("first successor is not in desired placement");
        }
        if policy == WriteAckPolicy::AllReplicas && n + 1
            < self.committed.desired_replication_factor as usize {
            return owned("complete desired replication factor is unavailable");
        }
        if count_admitted(followers) + 1 < guard.minimum_admitted_copies || count_healthy(followers)
            < guard.minimum_healthy_followers {
            return owned("minimum admitted-copy or healthy-follower guard is not satisfied");
        }
        let named = match policy {
            WriteAckPolicy::OwnerOnly => 0,
            WriteAckPolicy::FirstSuccessor => if n < 1 {
                n
            } else {
                1
            },
            WriteAckPolicy::AllReplicas => n,
        };
        match find_unhealthy(&range.follower_node_ids, followers, named) {
            Some(missing) => {
                let before = joined("required follower ", missing.as_str());
                joined(before.as_str(), " is not healthy and admitted")
            },
            None => {
                let none = String::new();
                proof {
                    assert(none@ =~= Seq::empty());
                }
                none
            },
        }
    }

    fn range_status(
        &self,
        grants: &Grants,
        progress: &Progress,
        range: &DerivedRange,
        now: u64,
    ) -> (r: RangeReplicaStatus)
        requires
            range.follower_node_ids@.len() < u32::MAX,
        ensures
            r@ == self@.range_status(shown(*grants), shown(*progress), range@, now),
    {
        let followers = self.follower_statuses(grants, progress, range, now);
        let ghost f = views(followers@);
        proof {
            assert(f.len() == followers@.len());
            assert(range@.follower_node_ids.len() == range.follower_node_ids@.len());
        }
        let owner_leased = self.node_has_lease(grants, &range.owner_node_id, now);
        let present = self.process_instances.contains(&range.owner_node_id)
            && !self.fenced_nodes.contains(&range.owner_node_id);
        let admitted = count_admitted(&followers);
        let current_rf = if present {
            admitted + 1
        } else {
            admitted
        };
        let live = count_live(&followers);
        let live_rf = if owner_leased {
            live + 1
        } else {
            live
        };
        let reason = self.block_reason(range, &followers, owner_leased);
        let repairing = is_repairing(&followers);
        let writable = reason.as_str().is_empty();
        let r = RangeReplicaStatus {
            start_exclusive: range.start_exclusive,
            end_inclusive: range.end_inclusive,
            owner_node_id: range.owner_node_id.clone(),
            desired_rf: self.committed.desired_replication_factor,
            current_rf: current_rf,
            followers: followers,
            owner_leased: owner_leased,
            live_rf: live_rf,
            writable: writable,
            write_block_reason: reason,
            under_replicated: live_rf < self.committed.desired_replication_factor,
            repairing: repairing,
        };
        proof {
            assert(r@ =~= self@.range_status(shown(*grants), shown(*progress), range@, now));
        }
        r
    }

    fn node_status(
        &self,
        grants: &Grants,
        failures: &PeerFailures,
        node: &String,
        now: u64,
    ) -> (r: NodeReplicaStatus)
        ensures
            r@ == self@.node_status(shown(*grants), shown(*failures), node@, now),
    {
        let process_instance_id = match self.process_instances.get(node) {
            Some(instance) => instance.clone(),
            None => String::new(),
        };
        let (expires, renewed) = match grants.get(node) {
            Some(grant) => (grant.expires_unix_millis, grant.last_renewal_unix_millis),
            None => (0, 0),
        };
        let r = NodeReplicaStatus {
            node_id: node.clone(),
            process_instance_id: process_instance_id,
            leased: self.node_has_lease(grants, node, now),
            lease_expires_unix_millis: expires,
            last_renewal_unix_millis: renewed,
            suspected: is_suspected(failures, node),
        };
        proof {
            assert(r@ =~= self@.node_status(shown(*grants), shown(*failures), node@, now));
        }
        r
    }

    /// Reports what is known of the copies of every range and of every member.
    pub fn get_replica_status(
        &self,
        grants: &Grants,
        failures: &PeerFailures,
        progress: &Progress,
        now: u64,
    ) -> (r: Result<ReplicaStatusResponse, Status>)
        requires
            self@.committed.assignments.len() < u32::MAX,
        ensures
            match r {
                Err(status) => self@.committed.range_fault() == Some(status@),
                Ok(status) => {
                    &&& self@.committed.range_fault() is None
                    &&& status.topology_epoch == self@.committed.epoch
                    &&& status.topology_digest@ == self@.committed.digest
                    &&& status.desired_rf == self@.committed.desired_replication_factor
                    &&& status.write_ack_policy == self@.committed.write_ack_policy
                    &&& status.activation_pending == self@.awaits_activation()
                    &&& status.ranges@.len() == self@.committed.ranges().len()
                    &&& forall|i: int|
                        0 <= i < status.ranges@.len() ==> (#[trigger] status.ranges@[i])@
                            == self@.range_status(
                            shown(*grants),
                            shown(*progress),
                            self@.committed.ranges()[i],
                            now,
                        )
                    &&& status.nodes@.len() == self@.committed.members.len()
                    &&& forall|i: int|
                        0 <= i < status.nodes@.len() ==> (#[trigger] status.nodes@[i])@
                            == self@.node_status(
                            shown(*grants),
                            shown(*failures),
                            self@.committed.members[i].node_id,
                            now,
                        )
                },
            },
    {
        let ranges = match ranges_of(&self.committed) {
            Ok(ranges) => ranges,
            Err(status) => return Err(status),
        };
        let ghost s = self@.committed.ranges();
        let mut statuses: Vec<RangeReplicaStatus> = Vec::new();
        let mut i: usize = 0;
        while i < ranges.len()
            invariant
                s == range_views(ranges@),
                s == self@.committed.ranges(),
                0 < self@.committed.assignments.len() < u32::MAX,
                i <= ranges@.len(),
                statuses@.len() == i,
                forall|j: int|
                    0 <= j < i ==> (#[trigger] statuses@[j])@ == self@.range_status(
                        shown(*grants),
                        shown(*progress),
                        s[j],
                        now,
                    ),
            decreases ranges.len() - i,
        {
            proof {
                assert(s[i as int] == ranges@[i as int]@);
                lemma_follower_bound(self@.committed, i as int);
                assert(s[i as int].follower_node_ids.len()
                    == ranges@[i as int].follower_node_ids@.len());
            }
            statuses.push(self.range_status(grants, progress, &ranges[i], now));
            i = i + 1;
        }
        let mut nodes: Vec<NodeReplicaStatus> = Vec::new();
        let mut i: usize = 0;
        while i < self.committed.members.len()
            invariant
                i <= self.committed.members@.len(),
                nodes@.len() == i,
                forall|j: int|
                    0 <= j < i ==> (#[trigger] nodes@[j])@ == self@.node_status(
                        shown(*grants),
                        shown(*failures),
                        self@.committed.members[j].node_id,
                        now,
                    ),
            decreases self.committed.members.len() - i,
        {
            proof {
                assert(self@.committed.members[i as int]
                    == self.committed.members@[i as int]@);
            }
            nodes.push(
                self.node_status(grants, failures, &self.committed.members[i].node_id, now),
            );
            i = i + 1;
        }
        Ok(
            ReplicaStatusResponse {
                topology_epoch: self.committed.epoch,
                topology_digest: self.committed.digest.clone(),
                desired_rf: self.committed.desired_replication_factor,
                write_ack_policy: self.committed.write_ack_policy,
                ranges: statuses,
                nodes: nodes,
                activation_pending: self.awaits_activation(),
            },
        )
    }
}

fn is_repairing(list: &Vec<FollowerReplicaStatus>) -> (r: bool)
    ensures
        r == exists|i: int|
            0 <= i < list@.len() && (!(#[trigger] views(list@)[i]).admitted || views(
                list@,
            )[i].repair_state != "Complete"@),
{
    let ghost s = views(list@);
    let mut i: usize = 0;
    while i < list.len()
        invariant
            s == views(list@),
            i <= list@.len(),
            forall|j: int|
                0 <= j < i ==> (#[trigger] s[j]).admitted && s[j].repair_state == "Complete"@,
        decreases list.len() - i,
    {
        proof {
            assert(s[i as int] == list@[i as int]@);
        }
        if !list[i].admitted || !same_text(list[i].repair_state.as_str(), "Complete") {
            return true;
        }
        i = i + 1;
    }
    false
}

fn is_suspected(failures: &PeerFailures, node: &String) -> (r: bool)
    ensures
        r == exists|k: Report| #[trigger] shown(*failures).contains_key(k) && k.0 == node@,
{
    failures.expose();
    let ghost s = failures.sequence();
    let mut i: usize = 0;
    while i < failures.len()
        invariant
            s == failures.sequence(),
            unique_entries(s),
            i <= s.len(),
            forall|j: int| 0 <= j < i ==> (#[trigger] s[j]).0.0 != node@,
        decreases s.len() - i,
    {
        let key = failures.key_at(i);
        proof {
            lemma_entry(s, i as int);
            assert(s[i as int].0 == (key.0@, key.1@));
        }
        if same_text(key.0.as_str(), node.as_str()) {
            proof {
                assert(shown(*failures).contains_key(s[i as int].0));
            }
            return true;
        }
        i = i + 1;
    }
    proof {
        assert forall|k: Report| #[trigger] shown(*failures).contains_key(k) implies k.0
            != node@ by {
            let j = entry_index(s, k);
            lemma_entry(s, j);
        }
    }
    false
}

/// A range without a block reason is writable: its owner holds a lease, and it has as many
/// admitted copies and healthy followers as the guard asks for.
pub proof fn law_writable_ranges_meet_the_guard(
    s: ClusterView,
    grants: Map<Seq<char>, GrantView>,
    progress: Map<Stream, StreamProgress>,
    range: RangeView,
    now: u64,
)
    requires
        s.range_status(grants, progress, range, now).writable,
    ensures
        s.has_lease(grants, range.owner_node_id, now),
        !s.awaits_activation(),
        ({
            let followers = s.follower_statuses(grants, progress, range, now);
            let guard = s.committed.write_availability_guard;
            &&& tally(followers, counts_as_admitted()) + 1 >= guard.minimum_admitted_copies
            &&& tally(followers, counts_as_healthy()) >= guard.minimum_healthy_followers
        }),
{
    reveal_strlit("topology activation pending");
    reveal_strlit("topology cutover write fence may be active");
    reveal_strlit("owner lease unavailable");
    reveal_strlit("first successor is not in desired placement");
    reveal_strlit("complete desired replication factor is unavailable");
    reveal_strlit("minimum admitted-copy or healthy-follower guard is not satisfied");
}

/// Only verified copies of running processes are counted: a follower counts as admitted only
/// if its own process was admitted at its place.
pub proof fn law_only_current_processes_are_admitted(
    s: ClusterView,
    grants: Map<Seq<char>, GrantView>,
    progress: Map<Stream, StreamProgress>,
    range: RangeView,
    node: Seq<char>,
    now: u64,
)
    requires
        s.follower_status(grants, progress, range, node, now).admitted,
    ensures
        s.runs(node, s.follower_status(grants, progress, range, node, now).process_instance_id),
        !s.fenced_nodes.contains(node),
{
    reveal(ClusterView::follower_status);
}

proof fn lemma_tally_at_most<T>(s: Seq<T>, p: spec_fn(T) -> bool)
    ensures
        tally(s, p) <= s.len(),
    decreases s.len(),
{
    if s.len() > 0 {
        lemma_tally_at_most(s.drop_last(), p);
    }
}

/// A range with fewer copies than are wanted is under-replicated, however current they are.
pub proof fn law_too_few_copies_are_under_replicated(
    s: ClusterView,
    grants: Map<Seq<char>, GrantView>,
    progress: Map<Stream, StreamProgress>,
    range: RangeView,
    now: u64,
)
    requires
        range.follower_node_ids.len() + 1 < s.committed.desired_replication_factor,
    ensures
        s.range_status(grants, progress, range, now).under_replicated,
{
    lemma_tally_at_most(s.follower_statuses(grants, progress, range, now), counts_as_live());
}

} // verus!
