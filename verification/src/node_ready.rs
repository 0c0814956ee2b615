//! Which followers a write waits for, and when it has waited enough.
use crate::errors::{
    epoch_error, error_at, temporarily_unavailable, temporary, ErrorCode, OperationError,
    OperationErrorView,
};
use crate::interval::interval_contains;
use crate::node::{DataNode, NodeView};
use crate::ordmap::{shown, SortedMap};
use crate::status::{
    lemma_tally_prefix, served_from, tally, unknown_follower, FollowerReplicaStatus,
    FollowerStatusView, RangeReplicaStatus, RangeStatusView,
};
use crate::text::{joined, own_from, owned, same_text, strs, texts};
use crate::topology::{SnapshotView, TopologySnapshot, WriteAckPolicy};
use crate::views::views;
use vstd::prelude::*;

verus! {

/// A follower that counts for a write: admitted, and no further behind than allowed.
pub open spec fn keeps_up(max_lag: u64) -> spec_fn(FollowerStatusView) -> bool {
    |f: FollowerStatusView| f.admitted && f.lag_known && f.lag_millis <= max_lag
}

/// An admitted follower.
pub open spec fn is_admitted() -> spec_fn(FollowerStatusView) -> bool {
    |f: FollowerStatusView| f.admitted
}

/// Some follower of this name keeps up.
pub open spec fn has_ready(followers: Seq<FollowerStatusView>, node_id: Seq<char>, max_lag: u64) -> bool {
    exists|i: int|
        0 <= i < followers.len() && (#[trigger] followers[i]).node_id == node_id && keeps_up(
            max_lag,
        )(followers[i])
}

impl SnapshotView {
    /// Writes wait for no follower and need none.
    pub open spec fn owner_suffices(self) -> bool {
        self.write_availability_guard.minimum_admitted_copies <= 1
            && self.write_availability_guard.minimum_healthy_followers == 0
            && self.write_ack_policy == WriteAckPolicy::OwnerOnly
    }

    /// The followers that a write at `token` waits for by policy.
    pub open spec fn awaited_followers(self, token: u64) -> Seq<Seq<char>> {
        let r = self.replicas(token);
        match self.write_ack_policy {
            WriteAckPolicy::OwnerOnly => Seq::empty(),
            WriteAckPolicy::FirstSuccessor => r.subrange(1, 2),
            WriteAckPolicy::AllReplicas => r.subrange(1, r.len() as int),
        }
    }

    /// What is wrong with the placement of a token for the policy, if anything.
    pub open spec fn placement_fault(self, token: u64) -> Option<OperationErrorView> {
        let r = self.replicas(token);
        if self.write_ack_policy == WriteAckPolicy::FirstSuccessor && r.len() < 2 {
            Some(temporary(self.epoch, "first successor is not in the desired placement"@))
        } else if self.write_ack_policy == WriteAckPolicy::AllReplicas && r.len()
            < self.desired_replication_factor {
            Some(temporary(self.epoch, "complete desired replication factor is unavailable"@))
        } else {
            None
        }
    }

    /// The first of these nodes that does not keep up, from `i` on.
    pub open spec fn first_unready(
        self,
        nodes: Seq<Seq<char>>,
        followers: Seq<FollowerStatusView>,
        i: nat,
    ) -> Option<Seq<char>>
        decreases nodes.len() - i,
    {
        if i >= nodes.len() {
            None
        } else if !has_ready(
            followers,
            nodes[i as int],
            self.write_availability_guard.max_replica_lag_millis,
        ) {
            Some(nodes[i as int])
        } else {
            self.first_unready(nodes, followers, i + 1)
        }
    }

    /// The followers that a write at `token` waits for, or why it cannot be taken, given what
    /// is known of its range.
    pub open spec fn followers_to_await(
        self,
        token: u64,
        range: Option<RangeStatusView>,
    ) -> Result<Seq<Seq<char>>, OperationErrorView> {
        let guard = self.write_availability_guard;
        if self.placement_fault(token) is Some {
            Err(self.placement_fault(token)->0)
        } else if self.owner_suffices() {
            Ok(Seq::empty())
        } else if range is None {
            Err(temporary(self.epoch, "replica admission status is unavailable"@))
        } else {
            let followers = range->0.followers;
            let desired = self.awaited_followers(token);
            if tally(followers, is_admitted()) + 1 < guard.minimum_admitted_copies || tally(
                followers,
                keeps_up(guard.max_replica_lag_millis),
            ) < guard.minimum_healthy_followers {
                Err(
                    temporary(
                        self.epoch,
                        "minimum admitted-copy or healthy-follower guard is not satisfied"@,
                    ),
                )
            } else {
                match self.first_unready(desired, followers, 0) {
                    Some(node_id) => Err(
                        epoch_error(
                            self.epoch,
                            ErrorCode::ReplicaNotReady,
                            "required follower "@ + node_id + " is not healthy and admitted"@,
                            true,
                        ),
                    ),
                    None => Ok(desired),
                }
            }
        }
    }

    /// What a status of epoch `epoch` says of the range of `owner` at `token`.
    pub open spec fn reported(
        self,
        epoch: u64,
        ranges: Seq<RangeStatusView>,
        owner: Seq<char>,
        token: u64,
    ) -> Option<RangeStatusView> {
        if epoch == self.epoch {
            served_from(ranges, owner, token, 0)
        } else {
            None
        }
    }
}

/// The answer to which followers a write waits for.
pub open spec fn answered(r: Result<Vec<String>, OperationError>) -> Result<
    Seq<Seq<char>>,
    OperationErrorView,
> {
    match r {
        Ok(list) => Ok(texts(list@)),
        Err(e) => Err(e@),
    }
}

fn ready_in(followers: &Vec<FollowerReplicaStatus>, node_id: &str, max_lag: u64) -> (r: bool)
    ensures
        r == has_ready(views(followers@), node_id@, max_lag),
{
    let ghost f = views(followers@);
    let mut i: usize = 0;
    while i < followers.len()
        invariant
            f == views(followers@),
            i <= followers@.len(),
            forall|j: int|
                0 <= j < i ==> !((#[trigger] f[j]).node_id == node_id@ && keeps_up(max_lag)(f[j])),
        decreases followers.len() - i,
    {
        let follower = &followers[i];
        proof {
            assert(f[i as int] == follower@);
        }
        if same_text(follower.node_id.as_str(), node_id) && follower.admitted && follower.lag_known
            && follower.lag_millis <= max_lag {
            return true;
        }
        i = i + 1;
    }
    false
}

fn count_admitted(followers: &Vec<FollowerReplicaStatus>) -> (n: usize)
    ensures
        n == tally(views(followers@), is_admitted()),
{
    let ghost f = views(followers@);
    let mut n: usize = 0;
    let mut i: usize = 0;
    proof {
        assert(f.subrange(0, 0) =~= Seq::empty());
    }
    while i < followers.len()
        invariant
            f == views(followers@),
            i <= followers@.len(),
            n <= i,
            n == tally(f.subrange(0, i as int), is_admitted()),
        decreases followers.len() - i,
    {
        proof {
            lemma_tally_prefix(f, i as int, is_admitted());
            assert(f[i as int] == followers@[i as int]@);
        }
        if followers[i].admitted {
            n = n + 1;
        }
        i = i + 1;
    }
    proof {
        assert(f.subrange(0, f.len() as int) =~= f);
    }
    n
}

fn count_ready(followers: &Vec<FollowerReplicaStatus>, max_lag: u64) -> (n: usize)
    ensures
        n == tally(views(followers@), keeps_up(max_lag)),
{
    let ghost f = views(followers@);
    let mut n: usize = 0;
    let mut i: usize = 0;
    proof {
        assert(f.subrange(0, 0) =~= Seq::empty());
    }
    while i < followers.len()
        invariant
            f == views(followers@),
            i <= followers@.len(),
            n <= i,
            n == tally(f.subrange(0, i as int), keeps_up(max_lag)),
        decreases followers.len() - i,
    {
        proof {
            lemma_tally_prefix(f, i as int, keeps_up(max_lag));
            assert(f[i as int] == followers@[i as int]@);
        }
        let follower = &followers[i];
        if follower.admitted && follower.lag_known && follower.lag_millis <= max_lag {
            n = n + 1;
        }
        i = i + 1;
    }
    proof {
        assert(f.subrange(0, f.len() as int) =~= f);
    }
    n
}

/// Looks up what a status says of the range of `owner` at `token`.
fn find_range<'a>(ranges: &'a Vec<RangeReplicaStatus>, owner: &str, token: u64) -> (r: Option<
    &'a RangeReplicaStatus,
>)
    ensures
        match r {
            Some(range) => served_from(views(ranges@), owner@, token, 0) == Some(range@),
            None => served_from(views(ranges@), owner@, token, 0) is None,
        },
{
    let ghost s = views(ranges@);
    let mut i: usize = 0;
    while i < ranges.len()
        invariant
            s == views(ranges@),
            i <= ranges@.len(),
            served_from(s, owner@, token, 0) == served_from(s, owner@, token, i as nat),
        decreases ranges.len() - i,
    {
        proof {
            assert(s[i as int] == ranges@[i as int]@);
        }
        if same_text(ranges[i].owner_node_id.as_str(), owner) && interval_contains(
            ranges[i].start_exclusive,
            ranges[i].end_inclusive,
            token,
        ) {
            return Some(&ranges[i]);
        }
        i = i + 1;
    }
    None
}

/// Chooses the followers that a write at `token` waits for, from what is known of its range.
pub fn followers_for(
    topology: &TopologySnapshot,
    token: u64,
    range: Option<&RangeReplicaStatus>,
) -> (r: Result<Vec<String>, OperationError>)
    requires
        topology@.placeable(),
    ensures
        answered(r) == topology@.followers_to_await(
            token,
            match range {
                Some(s) => Some(s@),
                None => None,
            },
        ),
{
    let epoch = topology.epoch;
    let replicas = match topology.replica_node_ids_for_token(token) {
        Ok(replicas) => replicas,
        Err(error) => {
            let message = error.message();
            return Err(temporarily_unavailable(epoch, message.as_str()));
        },
    };
    let ghost placed = topology@.replicas(token);
    proof {
        assert(placed.len() == replicas@.len());
    }
    let first_only = match topology.write_ack_policy {
        WriteAckPolicy::FirstSuccessor => true,
        _ => false,
    };
    let all = match topology.write_ack_policy {
        WriteAckPolicy::AllReplicas => true,
        _ => false,
    };
    if first_only && replicas.len() < 2 {
        return Err(
            temporarily_unavailable(epoch, "first successor is not in the desired placement"),
        );
    }
    if all && replicas.len() < topology.desired_replication_factor as usize {
        return Err(
            temporarily_unavailable(epoch, "complete desired replication factor is unavailable"),
        );
    }
    let guard = &topology.write_availability_guard;
    if guard.minimum_admitted_copies <= 1 && guard.minimum_healthy_followers == 0 && !first_only
        && !all {
        let none: Vec<String> = Vec::new();
        proof {
            assert(texts(none@) =~= Seq::empty());
        }
        return Ok(none);
    }
    let held = match range {
        Some(held) => held,
        None => {
            return Err(temporarily_unavailable(epoch, "replica admission status is unavailable"));
        },
    };
    let max_lag = guard.max_replica_lag_millis;
    let admitted = count_admitted(&held.followers);
    let healthy = count_ready(&held.followers, max_lag);
    let copies = guard.minimum_admitted_copies as u64;
    if (copies > 1 && (admitted as u64) < copies - 1) || (healthy as u64)
        < guard.minimum_healthy_followers as u64 {
        return Err(
            temporarily_unavailable(
                epoch,
                "minimum admitted-copy or healthy-follower guard is not satisfied",
            ),
        );
    }
    let desired: Vec<String> = if first_only {
        let mut one: Vec<String> = Vec::new();
        one.push(owned(replicas[1]));
        proof {
            assert(strs(replicas@)[1] == replicas@[1]@);
            assert(texts(one@) =~= placed.subrange(1, 2));
        }
        one
    } else if all {
        own_from(&replicas, 1)
    } else {
        let none: Vec<String> = Vec::new();
        proof {
            assert(texts(none@) =~= Seq::empty());
        }
        none
    };
    let ghost wanted = topology@.awaited_followers(token);
    let ghost known = views(held.followers@);
    proof {
        assert(texts(desired@) == wanted);
    }
    let mut i: usize = 0;
    while i < desired.len()
        invariant
            i <= desired@.len(),
            texts(desired@) == wanted,
            known == views(held.followers@),
            range == Some(held),
            epoch == topology@.epoch,
            max_lag == topology@.write_availability_guard.max_replica_lag_millis,
            topology@.first_unready(wanted, known, 0) == topology@.first_unready(
                wanted,
                known,
                i as nat,
            ),
            wanted == topology@.awaited_followers(token),
            topology@.placement_fault(token) is None,
            !topology@.owner_suffices(),
            tally(known, is_admitted()) + 1
                >= topology@.write_availability_guard.minimum_admitted_copies,
            tally(known, keeps_up(max_lag))
                >= topology@.write_availability_guard.minimum_healthy_followers,
        ensures
            i == desired@.len(),
        decreases desired.len() - i,
    {
        proof {
            assert(wanted[i as int] == desired@[i as int]@);
        }
        if !ready_in(&held.followers, desired[i].as_str(), max_lag) {
            let before = joined("required follower ", desired[i].as_str());
            let message = joined(before.as_str(), " is not healthy and admitted");
            return Err(error_at(epoch, ErrorCode::ReplicaNotReady, message.as_str(), true));
        }
        i = i + 1;
    }
    Ok(desired)
}

/// Chooses the followers that a write at `token` waits for, from a status of all ranges.
pub fn required_followers(
    topology: &TopologySnapshot,
    token: u64,
    status: Option<(u64, &Vec<RangeReplicaStatus>)>,
    owner_node_id: &str,
) -> (r: Result<Vec<String>, OperationError>)
    requires
        topology@.placeable(),
    ensures
        answered(r) == topology@.followers_to_await(
            token,
            match status {
                Some((epoch, ranges)) => topology@.reported(
                    epoch,
                    views(ranges@),
                    owner_node_id@,
                    token,
                ),
                None => None,
            },
        ),
{
    let range = match status {
        Some((epoch, ranges)) => if epoch == topology.epoch {
            find_range(ranges, owner_node_id, token)
        } else {
            None
        },
        None => None,
    };
    followers_for(topology, token, range)
}

/// How long the oldest write that a stream still owes was sent, at `unix`.
pub open spec fn stream_lag(
    unacked: Map<(u64, Seq<char>), Seq<(u64, u64)>>,
    stream: (u64, Seq<char>),
    unix: u64,
) -> u64 {
    if unacked.contains_key(stream) && unacked[stream].len() > 0 && unacked[stream][0].1 < unix {
        (unix - unacked[stream][0].1) as u64
    } else {
        0
    }
}

impl NodeView {
    /// What this node itself knows of one follower.
    pub open spec fn known_follower(self, node_id: Seq<char>, unix: u64) -> FollowerStatusView {
        FollowerStatusView {
            admitted: self.admitted_followers.contains_key(node_id),
            lag_known: true,
            lag_millis: stream_lag(self.owner_stream_unacked, (self.epoch(), node_id), unix),
            ..unknown_follower(node_id)
        }
    }

    /// What this node itself knows of the followers of a token.
    pub open spec fn known_followers(self, token: u64, unix: u64) -> Seq<FollowerStatusView> {
        let r = self.topology.replicas(token);
        Seq::new((r.len() - 1) as nat, |i: int| self.known_follower(r[i + 1], unix))
    }

    /// What this node itself knows of a range of which it is the owner at `token`.
    pub open spec fn known_range(self, token: u64, unix: u64) -> RangeStatusView {
        RangeStatusView {
            start_exclusive: token,
            end_inclusive: token,
            owner_node_id: self.node_id,
            desired_rf: self.topology.desired_replication_factor,
            current_rf: 0,
            followers: self.known_followers(token, unix),
            owner_leased: false,
            live_rf: 0,
            writable: false,
            write_block_reason: Seq::empty(),
            under_replicated: false,
            repairing: false,
        }
    }
}

impl DataNode {
    fn own_knowledge(&self, token: u64, unix: u64) -> (r: RangeReplicaStatus)
        requires
            self.wf(),
        ensures
            r@ == self@.known_range(token, unix),
    {
        let mut followers: Vec<FollowerReplicaStatus> = Vec::new();
        let replicas = match self.topology.replica_node_ids_for_token(token) {
            Ok(replicas) => replicas,
            Err(_) => Vec::new(),
        };
        let ghost placed = self@.topology.replicas(token);
        proof {
            assert(strs(replicas@) == placed);
            assert(placed.len() == replicas@.len());
        }
        let epoch = self.topology.epoch;
        let mut i: usize = 1;
        while i < replicas.len()
            invariant
                1 <= i <= replicas@.len(),
                strs(replicas@) == placed,
                epoch == self@.topology.epoch,
                followers@.len() == i - 1,
                forall|j: int|
                    0 <= j < i - 1 ==> (#[trigger] followers@[j])@ == self@.known_follower(
                        placed[j + 1],
                        unix,
                    ),
            decreases replicas.len() - i,
        {
            let node_id = owned(replicas[i]);
            let admitted = self.admitted_followers.contains(&node_id);
            let stream = (epoch, owned(replicas[i]));
            let sent_at = match self.owner_stream_unacked.get(&stream) {
                Some(queue) => if queue.len() > 0 {
                    queue[0].1
                } else {
                    unix
                },
                None => unix,
            };
            let mut follower = FollowerReplicaStatus::unknown(node_id);
            follower.admitted = admitted;
            follower.lag_known = true;
            if sent_at < unix {
                follower.lag_millis = unix - sent_at;
            }
            proof {
                assert(strs(replicas@)[i as int] == replicas@[i as int]@);
                assert(follower@ =~= self@.known_follower(placed[i as int], unix));
            }
            followers.push(follower);
            i = i + 1;
        }
        let r = RangeReplicaStatus {
            start_exclusive: token,
            end_inclusive: token,
            owner_node_id: self.node_id.clone(),
            desired_rf: self.topology.desired_replication_factor,
            current_rf: 0,
            followers: followers,
            owner_leased: false,
            live_rf: 0,
            writable: false,
            write_block_reason: String::new(),
            under_replicated: false,
            repairing: false,
        };
        proof {
            assert(r@ =~= self@.known_range(token, unix));
        }
        r
    }

    /// The followers that a write to `key` waits for, with the epoch that they were chosen
    /// under. What the node needs to know of them it knows itself: whom the coordinator has
    /// admitted, and what each has not acknowledged at `unix`.
    pub fn ready_followers(&self, key: &[u8], unix: u64) -> (r: Result<
        (u64, Vec<String>),
        OperationError,
    >)
        requires
            self.wf(),
        ensures
            ({
                let token = self@.token(key@);
                let wanted = self@.topology.followers_to_await(
                    token,
                    Some(self@.known_range(token, unix)),
                );
                match r {
                    Ok((epoch, list)) => epoch == self@.epoch() && wanted == Ok::<
                        Seq<Seq<char>>,
                        OperationErrorView,
                    >(texts(list@)),
                    Err(e) => wanted == Err::<Seq<Seq<char>>, OperationErrorView>(e@),
                }
            }),
    {
        let token = self.topology.key_token(key);
        let range = self.own_knowledge(token, unix);
        match followers_for(&self.topology, token, Some(&range)) {
            Ok(list) => Ok((self.topology.epoch, list)),
            Err(error) => Err(error),
        }
    }
}

/// The admitted ones among the first `n` followers of a range, each with its process, beside
/// those known before.
pub open spec fn with_admitted(
    known: Map<Seq<char>, Seq<char>>,
    followers: Seq<FollowerStatusView>,
    n: nat,
) -> Map<Seq<char>, Seq<char>>
    decreases n,
{
    if n == 0 {
        known
    } else {
        let rest = with_admitted(known, followers, (n - 1) as nat);
        let f = followers[n - 1];
        if f.admitted {
            rest.insert(f.node_id, f.process_instance_id)
        } else {
            rest
        }
    }
}

/// The followers that are admitted for a range of `owner` among the first `n` ranges, each with
/// its process.
pub open spec fn admitted_for(owner: Seq<char>, ranges: Seq<RangeStatusView>, n: nat) -> Map<
    Seq<char>,
    Seq<char>,
>
    decreases n,
{
    if n == 0 {
        Map::empty()
    } else {
        let rest = admitted_for(owner, ranges, (n - 1) as nat);
        let range = ranges[n - 1];
        if range.owner_node_id == owner {
            with_admitted(rest, range.followers, range.followers.len())
        } else {
            rest
        }
    }
}

fn add_admitted(known: &mut SortedMap<String, String>, followers: &Vec<FollowerReplicaStatus>)
    ensures
        shown(*final(known)) == with_admitted(
            shown(*old(known)),
            views(followers@),
            followers@.len(),
        ),
{
    let ghost before = shown(*known);
    let ghost s = views(followers@);
    let mut i: usize = 0;
    while i < followers.len()
        invariant
            s == views(followers@),
            i <= followers@.len(),
            shown(*known) == with_admitted(before, s, i as nat),
        decreases followers.len() - i,
    {
        let f = &followers[i];
        proof {
            assert(s[i as int] == f@);
        }
        let ghost rest = shown(*known);
        if f.admitted {
            let _ = known.insert(f.node_id.clone(), f.process_instance_id.clone());
            proof {
                assert(shown(*known) =~= rest.insert(f@.node_id, f@.process_instance_id));
            }
        }
        i = i + 1;
    }
}

impl DataNode {
    /// Takes over whom the coordinator has admitted as followers for ranges of this node, unless
    /// it speaks of another epoch.
    pub fn note_admissions(&mut self, epoch: u64, ranges: &Vec<RangeReplicaStatus>)
        requires
            old(self).wf(),
        ensures
            final(self).wf(),
            final(self).dedup_peak_bytes == old(self).dedup_peak_bytes,
            final(self)@ == if epoch != old(self)@.epoch() {
                old(self)@
            } else {
                NodeView {
                    admitted_followers: admitted_for(
                        old(self)@.node_id,
                        views(ranges@),
                        ranges@.len(),
                    ),
                    ..old(self)@
                }
            },
    {
        if epoch != self.topology.epoch {
            return;
        }
        let ghost s = views(ranges@);
        let ghost node_id = self.node_id@;
        let mut admitted: SortedMap<String, String> = SortedMap::new();
        let mut i: usize = 0;
        proof {
            assert(shown(admitted) =~= admitted_for(node_id, s, 0));
        }
        while i < ranges.len()
            invariant
                s == views(ranges@),
                node_id == self.node_id@,
                i <= ranges@.len(),
                shown(admitted) == admitted_for(node_id, s, i as nat),
            decreases ranges.len() - i,
        {
            let range = &ranges[i];
            proof {
                assert(s[i as int] == range@);
                assert(range@.followers.len() == range.followers@.len());
            }
            if same_text(range.owner_node_id.as_str(), self.node_id.as_str()) {
                add_admitted(&mut admitted, &range.followers);
            }
            i = i + 1;
        }
        let ghost before = *self;
        self.admitted_followers = admitted;
        proof {
            assert(self@ =~= NodeView {
                admitted_followers: admitted_for(node_id, s, ranges@.len()),
                ..before@
            });
        }
    }
}

proof fn lemma_all_ready(
    t: SnapshotView,
    nodes: Seq<Seq<char>>,
    followers: Seq<FollowerStatusView>,
    from: nat,
    i: nat,
)
    requires
        t.first_unready(nodes, followers, from) is None,
        from <= i < nodes.len(),
    ensures
        has_ready(
            followers,
            nodes[i as int],
            t.write_availability_guard.max_replica_lag_millis,
        ),
    decreases i - from,
{
    if from < i {
        lemma_all_ready(t, nodes, followers, from + 1, i);
    }
}

/// A write that waits for its first successor is taken only where that one is placed, admitted
/// and keeps up, and then waits for it alone.
pub proof fn law_first_successors_are_awaited(
    t: SnapshotView,
    token: u64,
    range: Option<RangeStatusView>,
)
    requires
        t.write_ack_policy == WriteAckPolicy::FirstSuccessor,
        t.followers_to_await(token, range) is Ok,
    ensures
        range is Some,
        t.replicas(token).len() >= 2,
        t.followers_to_await(token, range)->Ok_0 == seq![t.replicas(token)[1]],
        has_ready(
            range->0.followers,
            t.replicas(token)[1],
            t.write_availability_guard.max_replica_lag_millis,
        ),
{
    let desired = t.awaited_followers(token);
    assert(desired =~= seq![t.replicas(token)[1]]);
    lemma_all_ready(t, desired, range->0.followers, 0, 0);
}

/// A write that waits for all copies is taken only where all that are wanted are placed, and
/// every follower is admitted, keeps up and is waited for.
pub proof fn law_all_replicas_are_awaited(
    t: SnapshotView,
    token: u64,
    range: Option<RangeStatusView>,
    i: int,
)
    requires
        t.write_ack_policy == WriteAckPolicy::AllReplicas,
        t.followers_to_await(token, range) is Ok,
        1 <= i < t.replicas(token).len(),
    ensures
        t.replicas(token).len() >= t.desired_replication_factor,
        t.followers_to_await(token, range)->Ok_0.contains(t.replicas(token)[i]),
        has_ready(
            range->0.followers,
            t.replicas(token)[i],
            t.write_availability_guard.max_replica_lag_millis,
        ),
{
    let desired = t.awaited_followers(token);
    assert(desired[i - 1] == t.replicas(token)[i]);
    lemma_all_ready(t, desired, range->0.followers, 0, (i - 1) as nat);
}

} // verus!
