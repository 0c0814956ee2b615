//! Topologies, leases, fences and the end of a node.
use crate::errors::{refusal, refused, Code, Status, StatusView};
use crate::node::{DataNode, FollowerStream, NodeView, StreamView};
use crate::node_receipts::lemma_shown_kept;
use crate::ordmap::{kept, MapKey};
use crate::text::same_text;
use crate::topology::{
    member_views, topology_error_text, validation_error, Member, MemberView, SnapshotView,
    TopologySnapshot,
};
use crate::topology_laws::{distinct_ids, law_valid_topologies_are_canonical};
use vstd::prelude::*;

verus! {

/// Streams of one epoch.
pub open spec fn of_epoch<W>(epoch: u64) -> spec_fn((u64, Seq<char>), W) -> bool {
    |k: (u64, Seq<char>), w: W| k.0 == epoch
}

impl NodeView {
    /// The node under another topology. Under another epoch its lease ends, repairs are
    /// dropped, and admissions are forgotten where `forget` says so.
    pub open spec fn under(self, t: SnapshotView, forget: bool) -> NodeView {
        let n = if t.epoch != self.epoch() {
            NodeView {
                lease: None,
                admitted_followers: if forget {
                    Map::empty()
                } else {
                    self.admitted_followers
                },
                ..self.without_repairs()
            }
        } else {
            self
        };
        NodeView {
            topology: t,
            owner_stream_sequences: kept(n.owner_stream_sequences, of_epoch::<u64>(t.epoch)),
            owner_stream_unacked: kept(
                n.owner_stream_unacked,
                of_epoch::<Seq<(u64, u64)>>(t.epoch),
            ),
            follower_streams: kept(n.follower_streams, of_epoch::<StreamView>(t.epoch)),
            ..n
        }.pruned()
    }

    /// The node after the answer to a request for a lease that was sent at `sent_at`.
    pub open spec fn with_lease(
        self,
        requested_epoch: u64,
        answered_epoch: u64,
        duration_nanos: u64,
        sent_at: u64,
    ) -> NodeView {
        if answered_epoch == requested_epoch && duration_nanos > 0 && self.epoch()
            == requested_epoch {
            NodeView {
                lease: Some((requested_epoch, (sent_at + duration_nanos) as u64)),
                ..self
            }
        } else {
            self
        }
    }

    /// Why a topology is not installed, if it is not.
    pub open spec fn install_fault(self, t: TopologySnapshot) -> Option<StatusView> {
        match validation_error(t) {
            Some(e) => Some(refusal(Code::InvalidArgument, topology_error_text(e))),
            None => if t.epoch < self.epoch() {
                Some(refusal(Code::FailedPrecondition, "cannot install an older topology"@))
            } else {
                None
            },
        }
    }
}

impl DataNode {
    fn keep_streams_of(&mut self, epoch: u64)
        requires
            old(self).wf(),
        ensures
            final(self).wf(),
            final(self).dedup_peak_bytes == old(self).dedup_peak_bytes,
            final(self)@ == (NodeView {
                owner_stream_sequences: kept(
                    old(self)@.owner_stream_sequences,
                    of_epoch::<u64>(epoch),
                ),
                owner_stream_unacked: kept(
                    old(self)@.owner_stream_unacked,
                    of_epoch::<Seq<(u64, u64)>>(epoch),
                ),
                follower_streams: kept(old(self)@.follower_streams, of_epoch::<StreamView>(epoch)),
                ..old(self)@
            }),
    {
        let ghost start = *self;
        let keep = |k: &(u64, String), w: &u64| -> (b: bool)
            ensures
                b == (k.id().0 == epoch),
        { k.0 == epoch };
        self.owner_stream_sequences.retain(keep, Ghost(|k: (u64, Seq<char>), w: u64| k.0 == epoch));
        let keep = |k: &(u64, String), w: &Vec<(u64, u64)>| -> (b: bool)
            ensures
                b == (k.id().0 == epoch),
        { k.0 == epoch };
        self.owner_stream_unacked.retain(
            keep,
            Ghost(|k: (u64, Seq<char>), w: Vec<(u64, u64)>| k.0 == epoch),
        );
        let keep = |k: &(u64, String), w: &FollowerStream| -> (b: bool)
            ensures
                b == (k.id().0 == epoch),
        { k.0 == epoch };
        self.follower_streams.retain(
            keep,
            Ghost(|k: (u64, Seq<char>), w: FollowerStream| k.0 == epoch),
        );
        proof {
            lemma_shown_kept(
                start.owner_stream_sequences,
                self.owner_stream_sequences,
                |k: (u64, Seq<char>), w: u64| k.0 == epoch,
                of_epoch::<u64>(epoch),
            );
            lemma_shown_kept(
                start.owner_stream_unacked,
                self.owner_stream_unacked,
                |k: (u64, Seq<char>), w: Vec<(u64, u64)>| k.0 == epoch,
                of_epoch::<Seq<(u64, u64)>>(epoch),
            );
            lemma_shown_kept(
                start.follower_streams,
                self.follower_streams,
                |k: (u64, Seq<char>), w: FollowerStream| k.0 == epoch,
                of_epoch::<StreamView>(epoch),
            );
        }
    }

    fn adopt(&mut self, topology: TopologySnapshot, forget: bool)
        requires
            old(self).wf(),
            topology@.sound(),
        ensures
            final(self).wf(),
            final(self).dedup_peak_bytes == old(self).dedup_peak_bytes,
            final(self)@ == old(self)@.under(topology@, forget),
    {
        let ghost start = *self;
        let epoch = topology.epoch;
        if epoch != self.topology.epoch {
            self.lease = None;
            if forget {
                self.admitted_followers.clear();
            }
            self.clear_replica_repair_staging();
            proof {
                assert(self@.admitted_followers =~= if forget {
                    Map::empty()
                } else {
                    start@.admitted_followers
                });
            }
        }
        self.topology = topology;
        self.keep_streams_of(epoch);
        self.prune_ack_progress();
        proof {
            assert(self@ =~= start@.under(topology@, forget));
        }
    }

    /// Installs a topology that the coordinator sent. An older one is refused.
    pub fn install_topology(&mut self, topology: TopologySnapshot) -> (r: Result<(), Status>)
        requires
            old(self).wf(),
        ensures
            final(self).wf(),
            final(self).dedup_peak_bytes == old(self).dedup_peak_bytes,
            refused(r) == old(self)@.install_fault(topology),
            final(self)@ == if r is Ok {
                old(self)@.under(topology@, true)
            } else {
                old(self)@
            },
            final(self)@.epoch() >= old(self)@.epoch(),
    {
        if let Err(error) = topology.validate() {
            return Err(Status { code: Code::InvalidArgument, message: error.message() });
        }
        proof {
            law_valid_topologies_are_canonical(topology);
        }
        if topology.epoch < self.topology.epoch {
            return Err(Status::new(Code::FailedPrecondition, "cannot install an older topology"));
        }
        self.adopt(topology, true);
        Ok(())
    }

    /// Takes over a topology that was fetched, unless it is older.
    pub fn refresh_topology(&mut self, topology: TopologySnapshot)
        requires
            old(self).wf(),
            topology@.sound(),
        ensures
            final(self).wf(),
            final(self).dedup_peak_bytes == old(self).dedup_peak_bytes,
            final(self)@ == if topology.epoch >= old(self)@.epoch() {
                old(self)@.under(topology@, false)
            } else {
                old(self)@
            },
            final(self)@.epoch() >= old(self)@.epoch(),
    {
        if topology.epoch >= self.topology.epoch {
            self.adopt(topology, false);
        }
    }

    /// Whether a request knows of a newer topology than this node.
    pub fn needs_refresh(&self, request_epoch: u64) -> (r: bool)
        ensures
            r == (self@.epoch() < request_epoch),
    {
        self.topology.epoch < request_epoch
    }

    /// Takes the answer to a request for a lease that was sent at `sent_at`. The lease ends no
    /// later than the coordinator's own account of it.
    pub fn accept_lease(
        &mut self,
        requested_epoch: u64,
        answered_epoch: u64,
        duration_nanos: u64,
        sent_at: u64,
    )
        requires
            old(self).wf(),
            sent_at + duration_nanos <= u64::MAX,
        ensures
            final(self).wf(),
            final(self).dedup_peak_bytes == old(self).dedup_peak_bytes,
            final(self)@ == old(self)@.with_lease(
                requested_epoch,
                answered_epoch,
                duration_nanos,
                sent_at,
            ),
    {
        if answered_epoch == requested_epoch && duration_nanos > 0 && self.topology.epoch
            == requested_epoch {
            self.lease = Some((requested_epoch, sent_at + duration_nanos));
        }
    }

    /// Tells whether this node has a lease of its epoch at `now`.
    pub fn is_leased(&self, now: u64) -> (r: bool)
        ensures
            r == self@.leased(now),
    {
        match self.lease {
            Some((epoch, expires_at)) => epoch == self.topology.epoch && now < expires_at,
            None => false,
        }
    }

    /// Stops all writes for a change of the acknowledgement policy.
    pub fn pause_policy_writes(&mut self, change_id: String, base_epoch: u64) -> (r: Result<
        (),
        Status,
    >)
        requires
            old(self).wf(),
        ensures
            final(self).wf(),
            final(self).dedup_peak_bytes == old(self).dedup_peak_bytes,
            refused(r) == if change_id@.len() == 0 {
                Some(refusal(Code::InvalidArgument, "policy change ID is empty"@))
            } else if old(self)@.epoch() != base_epoch {
                Some(
                    refusal(
                        Code::FailedPrecondition,
                        "policy fence base epoch does not match installed topology"@,
                    ),
                )
            } else if old(self)@.policy_write_fence is Some && old(self)@.policy_write_fence->0 != (
                change_id@,
                base_epoch,
            ) {
                Some(
                    refusal(
                        Code::FailedPrecondition,
                        "another policy change has fenced writes"@,
                    ),
                )
            } else {
                None
            },
            final(self)@ == if r is Ok {
                NodeView { policy_write_fence: Some((change_id@, base_epoch)), ..old(self)@ }
            } else {
                old(self)@
            },
    {
        if change_id.as_str().is_empty() {
            return Err(Status::new(Code::InvalidArgument, "policy change ID is empty"));
        }
        if self.topology.epoch != base_epoch {
            return Err(
                Status::new(
                    Code::FailedPrecondition,
                    "policy fence base epoch does not match installed topology",
                ),
            );
        }
        let taken = match &self.policy_write_fence {
            Some((fence, epoch)) => !same_text(fence.as_str(), change_id.as_str()) || *epoch
                != base_epoch,
            None => false,
        };
        if taken {
            return Err(
                Status::new(Code::FailedPrecondition, "another policy change has fenced writes"),
            );
        }
        self.policy_write_fence = Some((change_id, base_epoch));
        Ok(())
    }

    /// Lets writes in again that this change had stopped.
    pub fn resume_policy_writes(&mut self, change_id: &String, base_epoch: u64)
        requires
            old(self).wf(),
        ensures
            final(self).wf(),
            final(self).dedup_peak_bytes == old(self).dedup_peak_bytes,
            final(self)@ == if old(self)@.policy_write_fence == Some((change_id@, base_epoch)) {
                NodeView { policy_write_fence: None, ..old(self)@ }
            } else {
                old(self)@
            },
    {
        let mine = match &self.policy_write_fence {
            Some((fence, epoch)) => same_text(fence.as_str(), change_id.as_str()) && *epoch
                == base_epoch,
            None => false,
        };
        if mine {
            self.policy_write_fence = None;
        }
    }

    /// Checks that a request to stop is meant for this process.
    pub fn validate_stop_request(&self, node_id: &str, process_instance_id: &str) -> (r: Result<
        (),
        Status,
    >)
        ensures
            refused(r) == self@.stop_fault(node_id@, process_instance_id@),
    {
        if !same_text(node_id, self.node_id.as_str()) || !same_text(
            process_instance_id,
            self.process_instance_id.as_str(),
        ) {
            return Err(
                Status::new(
                    Code::FailedPrecondition,
                    "stop request does not match this node process instance",
                ),
            );
        }
        Ok(())
    }

    /// Prepares this process to stop, and tells whether it was prepared just now.
    pub fn prepare_stop(&mut self, node_id: &str, process_instance_id: &str) -> (r: Result<
        bool,
        Status,
    >)
        requires
            old(self).wf(),
        ensures
            final(self).wf(),
            final(self).dedup_peak_bytes == old(self).dedup_peak_bytes,
            refused(r) == old(self)@.stop_fault(node_id@, process_instance_id@),
            r matches Ok(first) ==> first == !old(self)@.stop_prepared,
            final(self)@ == if r is Ok {
                NodeView { stop_prepared: true, ..old(self)@ }
            } else {
                old(self)@
            },
    {
        if let Err(status) = self.validate_stop_request(node_id, process_instance_id) {
            return Err(status);
        }
        let first = !self.stop_prepared;
        self.stop_prepared = true;
        Ok(first)
    }

    /// Tells whether this process may stop.
    pub fn stop(&self, node_id: &str, process_instance_id: &str) -> (r: Result<(), Status>)
        ensures
            refused(r) == if self@.stop_fault(node_id@, process_instance_id@) is Some {
                self@.stop_fault(node_id@, process_instance_id@)
            } else if !self@.stop_prepared {
                Some(
                    refusal(
                        Code::FailedPrecondition,
                        "stop must be prepared before finalization"@,
                    ),
                )
            } else {
                None
            },
    {
        if let Err(status) = self.validate_stop_request(node_id, process_instance_id) {
            return Err(status);
        }
        if !self.stop_prepared {
            return Err(
                Status::new(
                    Code::FailedPrecondition,
                    "stop must be prepared before finalization",
                ),
            );
        }
        Ok(())
    }
}

impl NodeView {
    /// Why a request to stop is not for this process, if it is not.
    pub open spec fn stop_fault(self, node_id: Seq<char>, process_instance_id: Seq<char>) -> Option<
        StatusView,
    > {
        if node_id != self.node_id || process_instance_id != self.process_instance_id {
            Some(
                refusal(
                    Code::FailedPrecondition,
                    "stop request does not match this node process instance"@,
                ),
            )
        } else {
            None
        }
    }
}

/// How far around the ring of members the `n`-th of four probes goes.
pub open spec fn probe_offset(count: nat, n: nat) -> nat {
    if n == 0 {
        1
    } else if n == 1 {
        2
    } else if n == 2 {
        if count >= 1 {
            (count - 1) as nat
        } else {
            0
        }
    } else {
        if count >= 2 {
            (count - 2) as nat
        } else {
            0
        }
    }
}

/// Whether a member is on a list.
pub open spec fn lists(members: Seq<MemberView>, node_id: Seq<char>) -> bool {
    exists|i: int| 0 <= i < members.len() && (#[trigger] members[i]).node_id == node_id
}

/// The members that the member at `index` probes, by the first `n` of four probes.
pub open spec fn probed(members: Seq<MemberView>, index: int, n: nat) -> Seq<MemberView>
    decreases n,
{
    if n == 0 {
        Seq::empty()
    } else {
        let rest = probed(members, index, (n - 1) as nat);
        let m = members[(index + probe_offset(members.len(), (n - 1) as nat)) % (
        members.len() as int)];
        if m.node_id != members[index].node_id && !lists(rest, m.node_id) {
            rest.push(m)
        } else {
            rest
        }
    }
}

/// Where a member stands.
pub open spec fn position(members: Seq<MemberView>, node_id: Seq<char>) -> int {
    crate::topology::first_member(members, node_id)
}

/// Every member is probed by both of its neighbours, so that one broken link alone never
/// confirms a failure.
pub proof fn law_neighbours_probe_each_other(members: Seq<MemberView>, i: int)
    requires
        members.len() >= 3,
        distinct_ids(members),
        0 <= i < members.len(),
    ensures
        ({
            let n = members.len() as int;
            &&& lists(probed(members, (i + 1) % n, 4), members[i].node_id)
            &&& lists(probed(members, (i + n - 1) % n, 4), members[i].node_id)
            &&& (i + 1) % n != (i + n - 1) % n
        }),
{
    let n = members.len() as int;
    let a = (i + 1) % n;
    let b = (i + n - 1) % n;
    assert(a == if i + 1 < n {
        i + 1
    } else {
        0
    }) by {
        if i + 1 < n {
            vstd::arithmetic::div_mod::lemma_small_mod((i + 1) as nat, n as nat);
        } else {
            vstd::arithmetic::div_mod::lemma_mod_self_0(n);
        }
    }
    assert(b == if i >= 1 {
        i - 1
    } else {
        n - 1
    }) by {
        if i >= 1 {
            assert(n + (i - 1) == i + n - 1);
            vstd::arithmetic::div_mod::lemma_mod_add_multiples_vanish(i - 1, n);
            vstd::arithmetic::div_mod::lemma_small_mod((i - 1) as nat, n as nat);
        } else {
            vstd::arithmetic::div_mod::lemma_small_mod((n - 1) as nat, n as nat);
        }
    }
    assert((a + (n - 1)) % n == i) by {
        if i + 1 < n {
            assert(a + (n - 1) == n + i);
            vstd::arithmetic::div_mod::lemma_mod_add_multiples_vanish(i, n);
            vstd::arithmetic::div_mod::lemma_small_mod(i as nat, n as nat);
        } else {
            assert(a + (n - 1) == i);
            vstd::arithmetic::div_mod::lemma_small_mod(i as nat, n as nat);
        }
    }
    assert((b + 1) % n == i) by {
        if i >= 1 {
            assert(b + 1 == i);
            vstd::arithmetic::div_mod::lemma_small_mod(i as nat, n as nat);
        } else {
            assert(b + 1 == n);
            vstd::arithmetic::div_mod::lemma_mod_self_0(n);
        }
    }
    lemma_probe(members, a, 2);
    lemma_probe(members, b, 0);
    lemma_probed_grows(members, a, 3, 4, members[i].node_id);
    lemma_probed_grows(members, b, 1, 4, members[i].node_id);
}

proof fn lemma_probe(members: Seq<MemberView>, index: int, n: nat)
    requires
        members.len() >= 3,
        distinct_ids(members),
        0 <= index < members.len(),
        n < 4,
    ensures
        ({
            let j = (index + probe_offset(members.len(), n)) % (members.len() as int);
            j != index ==> lists(probed(members, index, n + 1), members[j].node_id)
        }),
{
    let j = (index + probe_offset(members.len(), n)) % (members.len() as int);
    let rest = probed(members, index, n);
    if j != index {
        let m = members[j];
        assert(m.node_id != members[index].node_id);
        if !lists(rest, m.node_id) {
            assert(rest.push(m)[rest.len() as int] == m);
        }
    }
}

proof fn lemma_probed_grows(members: Seq<MemberView>, index: int, n: nat, m: nat, id: Seq<char>)
    requires
        n <= m,
        lists(probed(members, index, n), id),
    ensures
        lists(probed(members, index, m), id),
    decreases m - n,
{
    if n < m {
        let a = probed(members, index, n);
        let b = probed(members, index, n + 1);
        let k = choose|k: int| 0 <= k < a.len() && (#[trigger] a[k]).node_id == id;
        assert(b[k] == a[k]);
        lemma_probed_grows(members, index, n + 1, m, id);
    }
}

fn member_listed(members: &Vec<Member>, node_id: &str) -> (r: bool)
    ensures
        r == lists(member_views(members@), node_id@),
{
    let mut i: usize = 0;
    while i < members.len()
        invariant
            i <= members@.len(),
            forall|j: int| 0 <= j < i ==> (#[trigger] member_views(members@)[j]).node_id != node_id@,
        decreases members.len() - i,
    {
        proof {
            assert(member_views(members@)[i as int] == members@[i as int]@);
        }
        if same_text(members[i].node_id.as_str(), node_id) {
            return true;
        }
        i = i + 1;
    }
    false
}

/// The members that a node probes: four stable ones, however large the cluster is.
pub fn peer_probe_targets(topology: &TopologySnapshot, node_id: &str) -> (r: Vec<Member>)
    ensures
        member_views(r@) == if lists(topology@.members, node_id@) {
            probed(topology@.members, position(topology@.members, node_id@), 4)
        } else {
            Seq::empty()
        },
{
    let ghost members = topology@.members;
    let mut index: usize = 0;
    while index < topology.members.len() && !same_text(
        topology.members[index].node_id.as_str(),
        node_id,
    )
        invariant
            members == topology@.members,
            members.len() == topology.members@.len(),
            index <= members.len(),
            forall|j: int| 0 <= j < index ==> (#[trigger] members[j]).node_id != node_id@,
        decreases members.len() - index,
    {
        proof {
            assert(members[index as int] == topology.members@[index as int]@);
        }
        index = index + 1;
    }
    let mut targets: Vec<Member> = Vec::new();
    proof {
        assert(member_views(targets@) =~= Seq::empty());
    }
    let count = topology.members.len();
    if index == count {
        return targets;
    }
    proof {
        assert(members[index as int] == topology.members@[index as int]@);
        assert(members[index as int].node_id == node_id@);
        crate::migration::lemma_member_bounds(topology@, node_id@);
        assert(position(members, node_id@) == index);
    }
    let mut n: usize = 0;
    while n < 4
        invariant
            n <= 4,
            members == topology@.members,
            members.len() == topology.members@.len(),
            count == members.len(),
            index < count,
            members[index as int].node_id == node_id@,
            member_views(targets@) == probed(members, index as int, n as nat),
        decreases 4 - n,
    {
        let offset: usize = if n == 0 {
            1
        } else if n == 1 {
            2
        } else if n == 2 {
            if count >= 1 {
                count - 1
            } else {
                0
            }
        } else {
            if count >= 2 {
                count - 2
            } else {
                0
            }
        };
        let at = ((index as u128 + offset as u128) % (count as u128)) as usize;
        let member = &topology.members[at];
        proof {
            assert(members[(index + offset) as int % count as int] == member@);
        }
        if !same_text(member.node_id.as_str(), node_id) && !member_listed(
            &targets,
            member.node_id.as_str(),
        ) {
            let copied = member.clone();
            proof {
                assert(member_views(targets@.push(copied)) =~= member_views(targets@).push(
                    copied@,
                ));
            }
            targets.push(copied);
        }
        n = n + 1;
    }
    targets
}

/// What a process tells of itself.
#[derive(Debug, Eq, PartialEq)]
pub struct NodeInfo {
    pub node_id: String,
    pub process_instance_id: String,
    pub dedup_bytes: u64,
    pub dedup_peak_bytes: u64,
    pub dedup_capacity_bytes: u64,
    pub owner_dedup_rejections: u64,
    pub follower_dedup_rejections: u64,
}

impl DataNode {
    /// Tells of this process.
    pub fn get_process_info(&self) -> (r: NodeInfo)
        requires
            self.wf(),
        ensures
            r.node_id@ == self@.node_id,
            r.process_instance_id@ == self@.process_instance_id,
            r.dedup_bytes == self.receipts.bytes,
            r.dedup_peak_bytes == self.dedup_peak_bytes,
            r.dedup_capacity_bytes == self@.limits.max_dedup_bytes,
            r.owner_dedup_rejections == self@.owner_dedup_rejections,
            r.follower_dedup_rejections == self@.follower_dedup_rejections,
    {
        NodeInfo {
            node_id: self.node_id.clone(),
            process_instance_id: self.process_instance_id.clone(),
            dedup_bytes: self.receipts.bytes as u64,
            dedup_peak_bytes: self.dedup_peak_bytes as u64,
            dedup_capacity_bytes: self.limits.max_dedup_bytes as u64,
            owner_dedup_rejections: self.owner_dedup_rejections,
            follower_dedup_rejections: self.follower_dedup_rejections,
        }
    }
}

/// How a node finds itself in the topologies of a coordinator.
#[derive(Clone, Copy, Debug, Eq, PartialEq, Structural)]
pub enum Membership {
    /// It serves now.
    Committed,
    /// It will serve once the change under way is through.
    Pending,
    Unknown,
}

/// Finds a node among the members of now and of the change under way.
pub fn find_membership(
    committed: &TopologySnapshot,
    pending: Option<&TopologySnapshot>,
    node_id: &str,
) -> (r: Membership)
    ensures
        r == if committed@.is_member(node_id@) {
            Membership::Committed
        } else if pending is Some && pending->0@.is_member(node_id@) {
            Membership::Pending
        } else {
            Membership::Unknown
        },
{
    if committed.member(node_id).is_some() {
        return Membership::Committed;
    }
    match pending {
        Some(target) => if target.member(node_id).is_some() {
            Membership::Pending
        } else {
            Membership::Unknown
        },
        None => Membership::Unknown,
    }
}

} // verus!
