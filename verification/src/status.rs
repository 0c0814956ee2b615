//! What is known of the copies of each range.
use crate::ring::in_interval;
use crate::topology::WriteAckPolicy;
use crate::views::views;
use vstd::prelude::*;

verus! {

/// What is known of one follower of a range.
#[derive(Debug, Eq, PartialEq)]
pub struct FollowerReplicaStatus {
    pub node_id: String,
    pub admitted: bool,
    pub process_instance_id: String,
    pub verified_watermark: u64,
    pub stream_cursor: u64,
    pub lag_millis: u64,
    pub lag_known: bool,
    pub stream_head: u64,
    pub repair_state: String,
    pub leased: bool,
    pub healthy: bool,
    pub repair_retry_count: u32,
    pub repair_next_attempt_unix_millis: u64,
    pub repair_last_error: String,
}

#[verifier::ext_equal]
pub struct FollowerStatusView {
    pub node_id: Seq<char>,
    pub admitted: bool,
    pub process_instance_id: Seq<char>,
    pub verified_watermark: u64,
    pub stream_cursor: u64,
    pub lag_millis: u64,
    pub lag_known: bool,
    pub stream_head: u64,
    pub repair_state: Seq<char>,
    pub leased: bool,
    pub healthy: bool,
    pub repair_retry_count: u32,
    pub repair_next_attempt_unix_millis: u64,
    pub repair_last_error: Seq<char>,
}

impl View for FollowerReplicaStatus {
    type V = FollowerStatusView;

    open spec fn view(&self) -> FollowerStatusView {
        FollowerStatusView {
            node_id: self.node_id@,
            admitted: self.admitted,
            process_instance_id: self.process_instance_id@,
            verified_watermark: self.verified_watermark,
            stream_cursor: self.stream_cursor,
            lag_millis: self.lag_millis,
            lag_known: self.lag_known,
            stream_head: self.stream_head,
            repair_state: self.repair_state@,
            leased: self.leased,
            healthy: self.healthy,
            repair_retry_count: self.repair_retry_count,
            repair_next_attempt_unix_millis: self.repair_next_attempt_unix_millis,
            repair_last_error: self.repair_last_error@,
        }
    }
}

/// A follower of which nothing is known.
pub open spec fn unknown_follower(node_id: Seq<char>) -> FollowerStatusView {
    FollowerStatusView {
        node_id: node_id,
        admitted: false,
        process_instance_id: Seq::empty(),
        verified_watermark: 0,
        stream_cursor: 0,
        lag_millis: 0,
        lag_known: false,
        stream_head: 0,
        repair_state: Seq::empty(),
        leased: false,
        healthy: false,
        repair_retry_count: 0,
        repair_next_attempt_unix_millis: 0,
        repair_last_error: Seq::empty(),
    }
}

impl FollowerReplicaStatus {
    /// A follower of which nothing is known.
    pub fn unknown(node_id: String) -> (r: Self)
        ensures
            r@ == unknown_follower(node_id@),
    {
        let r = FollowerReplicaStatus {
            node_id: node_id,
            admitted: false,
            process_instance_id: String::new(),
            verified_watermark: 0,
            stream_cursor: 0,
            lag_millis: 0,
            lag_known: false,
            stream_head: 0,
            repair_state: String::new(),
            leased: false,
            healthy: false,
            repair_retry_count: 0,
            repair_next_attempt_unix_millis: 0,
            repair_last_error: String::new(),
        };
        proof {
            assert(r@ =~= unknown_follower(r@.node_id));
        }
        r
    }
}

/// What is known of the copies of one range.
#[derive(Debug, Eq, PartialEq)]
pub struct RangeReplicaStatus {
    pub start_exclusive: u64,
    pub end_inclusive: u64,
    pub owner_node_id: String,
    pub desired_rf: u32,
    pub current_rf: u32,
    pub followers: Vec<FollowerReplicaStatus>,
    pub owner_leased: bool,
    pub live_rf: u32,
    pub writable: bool,
    pub write_block_reason: String,
    pub under_replicated: bool,
    pub repairing: bool,
}

#[verifier::ext_equal]
pub struct RangeStatusView {
    pub start_exclusive: u64,
    pub end_inclusive: u64,
    pub owner_node_id: Seq<char>,
    pub desired_rf: u32,
    pub current_rf: u32,
    pub followers: Seq<FollowerStatusView>,
    pub owner_leased: bool,
    pub live_rf: u32,
    pub writable: bool,
    pub write_block_reason: Seq<char>,
    pub under_replicated: bool,
    pub repairing: bool,
}

impl View for RangeReplicaStatus {
    type V = RangeStatusView;

    open spec fn view(&self) -> RangeStatusView {
        RangeStatusView {
            start_exclusive: self.start_exclusive,
            end_inclusive: self.end_inclusive,
            owner_node_id: self.owner_node_id@,
            desired_rf: self.desired_rf,
            current_rf: self.current_rf,
            followers: views(self.followers@),
            owner_leased: self.owner_leased,
            live_rf: self.live_rf,
            writable: self.writable,
            write_block_reason: self.write_block_reason@,
            under_replicated: self.under_replicated,
            repairing: self.repairing,
        }
    }
}

/// What is known of one member.
#[derive(Debug, Eq, PartialEq)]
pub struct NodeReplicaStatus {
    pub node_id: String,
    pub process_instance_id: String,
    pub leased: bool,
    pub lease_expires_unix_millis: u64,
    pub last_renewal_unix_millis: u64,
    pub suspected: bool,
}

#[verifier::ext_equal]
pub struct NodeStatusView {
    pub node_id: Seq<char>,
    pub process_instance_id: Seq<char>,
    pub leased: bool,
    pub lease_expires_unix_millis: u64,
    pub last_renewal_unix_millis: u64,
    pub suspected: bool,
}

impl View for NodeReplicaStatus {
    type V = NodeStatusView;

    open spec fn view(&self) -> NodeStatusView {
        NodeStatusView {
            node_id: self.node_id@,
            process_instance_id: self.process_instance_id@,
            leased: self.leased,
            lease_expires_unix_millis: self.lease_expires_unix_millis,
            last_renewal_unix_millis: self.last_renewal_unix_millis,
            suspected: self.suspected,
        }
    }
}

/// What is known of the copies of all ranges.
#[derive(Debug, Eq, PartialEq)]
pub struct ReplicaStatusResponse {
    pub topology_epoch: u64,
    pub topology_digest: String,
    pub desired_rf: u32,
    pub write_ack_policy: WriteAckPolicy,
    pub ranges: Vec<RangeReplicaStatus>,
    pub nodes: Vec<NodeReplicaStatus>,
    pub activation_pending: bool,
}

/// How many of these satisfy `p`.
pub open spec fn tally<T>(s: Seq<T>, p: spec_fn(T) -> bool) -> nat
    decreases s.len(),
{
    if s.len() == 0 {
        0
    } else {
        tally(s.drop_last(), p) + if p(s.last()) {
            1nat
        } else {
            0nat
        }
    }
}

pub proof fn lemma_tally_prefix<T>(s: Seq<T>, n: int, p: spec_fn(T) -> bool)
    requires
        0 <= n < s.len(),
    ensures
        tally(s.subrange(0, n + 1), p) == tally(s.subrange(0, n), p) + if p(s[n]) {
            1nat
        } else {
            0nat
        },
{
    assert(s.subrange(0, n + 1).drop_last() =~= s.subrange(0, n));
}

/// The first of these ranges from `i` on that `owner` serves at `token`.
pub open spec fn served_from(
    ranges: Seq<RangeStatusView>,
    owner: Seq<char>,
    token: u64,
    i: nat,
) -> Option<RangeStatusView>
    decreases ranges.len() - i,
{
    if i >= ranges.len() {
        None
    } else if ranges[i as int].owner_node_id == owner && in_interval(
        ranges[i as int].start_exclusive,
        ranges[i as int].end_inclusive,
        token,
    ) {
        Some(ranges[i as int])
    } else {
        served_from(ranges, owner, token, i + 1)
    }
}

} // verus!
