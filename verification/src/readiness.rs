//! Whether copies have caught up far enough for new settings to be published.
use crate::coverage::ranges_of;
use crate::errors::{refusal, refused, Code, Status};
use crate::ring::RangeView;
use crate::status::{
    lemma_tally_prefix, tally, FollowerReplicaStatus, FollowerStatusView, RangeReplicaStatus,
    RangeStatusView, ReplicaStatusResponse,
};
use crate::text::{same_text, texts};
use crate::topology::{range_views, DerivedRange, SnapshotView, TopologySnapshot, WriteAckPolicy};
use crate::views::views;
use vstd::prelude::*;

verus! {

/// A follower is admitted.
pub open spec fn admitted() -> spec_fn(FollowerStatusView) -> bool {
    |f: FollowerStatusView| f.admitted
}

/// A follower is admitted and has applied everything, with a lag of at most `limit`.
pub open spec fn caught_up(limit: u64) -> spec_fn(FollowerStatusView) -> bool {
    |f: FollowerStatusView|
        f.admitted && f.lag_known && f.lag_millis <= limit && f.stream_cursor == f.stream_head
}

/// Every admitted follower has applied everything.
pub open spec fn none_behind(followers: Seq<FollowerStatusView>) -> bool {
    forall|i: int|
        0 <= i < followers.len() && (#[trigger] followers[i]).admitted ==> followers[i].lag_known
            && followers[i].stream_cursor == followers[i].stream_head
}

/// A node has caught up, as far as is known.
pub open spec fn node_caught_up(followers: Seq<FollowerStatusView>, node: Seq<char>, limit: u64) -> bool {
    exists|i: int|
        0 <= i < followers.len() && (#[trigger] followers[i]).node_id == node && caught_up(limit)(
            followers[i],
        )
}

/// What is known of a range, from `i` on.
pub open spec fn status_of(ranges: Seq<RangeStatusView>, range: RangeView, i: nat) -> Option<
    RangeStatusView,
>
    decreases ranges.len() - i,
{
    if i >= ranges.len() {
        None
    } else if ranges[i as int].start_exclusive == range.start_exclusive
        && ranges[i as int].end_inclusive == range.end_inclusive && ranges[i as int].owner_node_id
        == range.owner_node_id {
        Some(ranges[i as int])
    } else {
        status_of(ranges, range, i + 1)
    }
}

impl SnapshotView {
    /// How many followers of a range must have caught up by name.
    pub open spec fn barrier_followers(self, range: RangeView) -> nat {
        let n = range.follower_node_ids.len();
        match self.write_ack_policy {
            WriteAckPolicy::OwnerOnly => 0,
            WriteAckPolicy::FirstSuccessor => if n < 1 {
                n
            } else {
                1
            },
            WriteAckPolicy::AllReplicas => n,
        }
    }

    /// A range meets the settings of this topology, as far as is known of its followers.
    pub open spec fn range_ready(self, range: RangeView, followers: Seq<FollowerStatusView>) -> bool {
        let guard = self.write_availability_guard;
        let limit = guard.max_replica_lag_millis;
        &&& none_behind(followers)
        &&& tally(followers, admitted()) + 1 >= guard.minimum_admitted_copies
        &&& tally(followers, caught_up(limit)) >= guard.minimum_healthy_followers
        &&& self.write_ack_policy == WriteAckPolicy::AllReplicas
            ==> range.follower_node_ids.len() + 1 >= self.desired_replication_factor
        &&& forall|k: int|
            0 <= k < self.barrier_followers(range) ==> node_caught_up(
                followers,
                #[trigger] range.follower_node_ids[k],
                limit,
            )
    }

    /// A range is known, and it meets the settings of this topology.
    pub open spec fn known_ready(self, range: RangeView, known: Seq<RangeStatusView>) -> bool {
        match status_of(known, range, 0) {
            Some(actual) => self.range_ready(range, actual.followers),
            None => false,
        }
    }

    /// Every range meets the settings of this topology in the epoch before it.
    pub open spec fn ready_after(self, epoch: u64, known: Seq<RangeStatusView>) -> bool {
        &&& epoch == if self.epoch == 0 {
            0
        } else {
            (self.epoch - 1) as u64
        }
        &&& self.range_fault() is None
        &&& forall|i: int|
            0 <= i < self.ranges().len() ==> self.known_ready(#[trigger] self.ranges()[i], known)
    }
}

fn count_admitted(list: &Vec<FollowerReplicaStatus>) -> (r: usize)
    ensures
        r == tally(views(list@), admitted()),
        r <= list@.len(),
{
    let ghost s = views(list@);
    let ghost p = admitted();
    let mut n: usize = 0;
    let mut i: usize = 0;
    proof {
        assert(s.subrange(0, 0) =~= Seq::empty());
    }
    while i < list.len()
        invariant
            s == views(list@),
            p == admitted(),
            n <= i <= list@.len(),
            n == tally(s.subrange(0, i as int), p),
        decreases list.len() - i,
    {
        proof {
            assert(s[i as int] == list@[i as int]@);
            lemma_tally_prefix(s, i as int, p);
        }
        if list[i].admitted {
            n = n + 1;
        }
        i = i + 1;
    }
    proof {
        assert(s.subrange(0, s.len() as int) =~= s);
    }
    n
}

fn has_caught_up(f: &FollowerReplicaStatus, limit: u64) -> (r: bool)
    ensures
        r == caught_up(limit)(f@),
{
    f.admitted && f.lag_known && f.lag_millis <= limit && f.stream_cursor == f.stream_head
}

fn count_caught_up(list: &Vec<FollowerReplicaStatus>, limit: u64) -> (r: usize)
    ensures
        r == tally(views(list@), caught_up(limit)),
{
    let ghost s = views(list@);
    let ghost p = caught_up(limit);
    let mut n: usize = 0;
    let mut i: usize = 0;
    proof {
        assert(s.subrange(0, 0) =~= Seq::empty());
    }
    while i < list.len()
        invariant
            s == views(list@),
            p == caught_up(limit),
            n <= i <= list@.len(),
            n == tally(s.subrange(0, i as int), p),
        decreases list.len() - i,
    {
        proof {
            assert(s[i as int] == list@[i as int]@);
            lemma_tally_prefix(s, i as int, p);
        }
        if has_caught_up(&list[i], limit) {
            n = n + 1;
        }
        i = i + 1;
    }
    proof {
        assert(s.subrange(0, s.len() as int) =~= s);
    }
    n
}

fn is_none_behind(list: &Vec<FollowerReplicaStatus>) -> (r: bool)
    ensures
        r == none_behind(views(list@)),
{
    let ghost s = views(list@);
    let mut i: usize = 0;
    while i < list.len()
        invariant
            s == views(list@),
            i <= list@.len(),
            forall|j: int|
                0 <= j < i && (#[trigger] s[j]).admitted ==> s[j].lag_known && s[j].stream_cursor
                    == s[j].stream_head,
        decreases list.len() - i,
    {
        let f = &list[i];
        proof {
            assert(s[i as int] == f@);
        }
        if f.admitted && (!f.lag_known || f.stream_cursor != f.stream_head) {
            return false;
        }
        i = i + 1;
    }
    true
}

fn is_node_caught_up(list: &Vec<FollowerReplicaStatus>, node: &String, limit: u64) -> (r: bool)
    ensures
        r == node_caught_up(views(list@), node@, limit),
{
    let ghost s = views(list@);
    let mut i: usize = 0;
    while i < list.len()
        invariant
            s == views(list@),
            i <= list@.len(),
            forall|j: int|
                0 <= j < i ==> !((#[trigger] s[j]).node_id == node@ && caught_up(limit)(s[j])),
        decreases list.len() - i,
    {
        proof {
            assert(s[i as int] == list@[i as int]@);
        }
        if same_text(list[i].node_id.as_str(), node.as_str()) && has_caught_up(&list[i], limit) {
            proof {
                assert(caught_up(limit)(s[i as int]));
            }
            return true;
        }
        i = i + 1;
    }
    false
}

fn find_status<'a>(list: &'a Vec<RangeReplicaStatus>, range: &DerivedRange) -> (r: Option<
    &'a RangeReplicaStatus,
>)
    ensures
        match r {
            Some(found) => status_of(views(list@), range@, 0) == Some(found@),
            None => status_of(views(list@), range@, 0) is None,
        },
{
    let ghost s = views(list@);
    let mut i: usize = 0;
    while i < list.len()
        invariant
            s == views(list@),
            i <= list@.len(),
            status_of(s, range@, 0) == status_of(s, range@, i as nat),
        decreases list.len() - i,
    {
        let actual = &list[i];
        proof {
            assert(s[i as int] == actual@);
        }
        if actual.start_exclusive == range.start_exclusive && actual.end_inclusive
            == range.end_inclusive && same_text(
            actual.owner_node_id.as_str(),
            range.owner_node_id.as_str(),
        ) {
            return Some(actual);
        }
        i = i + 1;
    }
    None
}

fn is_range_ready(t: &TopologySnapshot, range: &DerivedRange, list: &Vec<FollowerReplicaStatus>) -> (r:
    bool)
    ensures
        r == t@.range_ready(range@, views(list@)),
{
    let guard = &t.write_availability_guard;
    let limit = guard.max_replica_lag_millis;
    let n = range.follower_node_ids.len();
    let ghost f = range@.follower_node_ids;
    proof {
        assert(f.len() == n);
        assert(views(list@).len() == list@.len());
    }
    if !is_none_behind(list) {
        return false;
    }
    let count = count_admitted(list);
    if guard.minimum_admitted_copies > 0 && count < guard.minimum_admitted_copies as usize - 1 {
        return false;
    }
    if count_caught_up(list, limit) < guard.minimum_healthy_followers as usize {
        return false;
    }
    if t.write_ack_policy == WriteAckPolicy::AllReplicas && t.desired_replication_factor > 0 && n
        < t.desired_replication_factor as usize - 1 {
        return false;
    }
    let named = match t.write_ack_policy {
        WriteAckPolicy::OwnerOnly => 0,
        WriteAckPolicy::FirstSuccessor => if n < 1 {
            n
        } else {
            1
        },
        WriteAckPolicy::AllReplicas => n,
    };
    let mut k: usize = 0;
    while k < named
        invariant
            f == range@.follower_node_ids,
            f == texts(range.follower_node_ids@),
            named == t@.barrier_followers(range@),
            named <= f.len(),
            k <= named,
            forall|j: int|
                0 <= j < k ==> node_caught_up(views(list@), #[trigger] f[j], limit),
            limit == t@.write_availability_guard.max_replica_lag_millis,
        decreases named - k,
    {
        proof {
            assert(f[k as int] == range.follower_node_ids@[k as int]@);
        }
        if !is_node_caught_up(list, &range.follower_node_ids[k], limit) {
            proof {
                assert(!node_caught_up(views(list@), f[k as int], limit));
            }
            return false;
        }
        k = k + 1;
    }
    true
}

/// Tells whether every range meets the settings of a topology that is about to be published.
pub fn policy_readiness_verified(topology: &TopologySnapshot, status: &ReplicaStatusResponse) -> (r:
    bool)
    ensures
        r == topology@.ready_after(status.topology_epoch, views(status.ranges@)),
{
    if status.topology_epoch != topology.epoch.saturating_sub(1) {
        return false;
    }
    let ranges = match ranges_of(topology) {
        Ok(ranges) => ranges,
        Err(_) => return false,
    };
    let ghost s = topology@.ranges();
    let mut i: usize = 0;
    while i < ranges.len()
        invariant
            s == range_views(ranges@),
            s == topology@.ranges(),
            i <= ranges@.len(),
            forall|j: int|
                0 <= j < i ==> topology@.known_ready(#[trigger] s[j], views(status.ranges@)),
        decreases ranges.len() - i,
    {
        proof {
            assert(s[i as int] == ranges@[i as int]@);
        }
        let ready = match find_status(&status.ranges, &ranges[i]) {
            Some(actual) => is_range_ready(topology, &ranges[i], &actual.followers),
            None => false,
        };
        if !ready {
            proof {
                assert(!topology@.known_ready(s[i as int], views(status.ranges@)));
            }
            return false;
        }
        i = i + 1;
    }
    true
}

/// What to do while copies catch up before new settings are published.
#[derive(Debug, Eq, PartialEq)]
pub enum Readiness {
    Ready,
    /// Look again later.
    Wait,
    /// Abort, and do not try again.
    Late(Status),
}

/// Decides whether the new settings may be published yet.
pub fn await_readiness(
    topology: &TopologySnapshot,
    status: &ReplicaStatusResponse,
    now: u64,
    deadline: u64,
) -> (r: Readiness)
    ensures
        ({
            let ready = topology@.ready_after(status.topology_epoch, views(status.ranges@));
            match r {
                Readiness::Ready => ready,
                Readiness::Wait => !ready && now < deadline,
                Readiness::Late(error) => !ready && now >= deadline && error@ == refusal(
                    Code::DeadlineExceeded,
                    "required followers did not catch up before policy publication"@,
                ),
            }
        }),
{
    if policy_readiness_verified(topology, status) {
        return Readiness::Ready;
    }
    if now < deadline {
        return Readiness::Wait;
    }
    Readiness::Late(
        Status::new(
            Code::DeadlineExceeded,
            "required followers did not catch up before policy publication",
        ),
    )
}

/// Checks once more, right before the new settings are published.
pub fn recheck_readiness(topology: &TopologySnapshot, status: &ReplicaStatusResponse) -> (r: Result<
    (),
    Status,
>)
    ensures
        refused(r) == if topology@.ready_after(status.topology_epoch, views(status.ranges@)) {
            None
        } else {
            Some(
                refusal(
                    Code::FailedPrecondition,
                    "policy readiness was lost before publication"@,
                ),
            )
        },
{
    if policy_readiness_verified(topology, status) {
        Ok(())
    } else {
        Err(
            Status::new(
                Code::FailedPrecondition,
                "policy readiness was lost before publication",
            ),
        )
    }
}

/// How the members answer when writes are fenced or let through again.
pub struct FenceTally {
    pub first_error: Option<Status>,
}

impl FenceTally {
    pub fn new() -> (r: Self)
        ensures
            r.first_error is None,
    {
        FenceTally { first_error: None }
    }

    /// Takes note of one answer and tells whether the next member is asked: a fence needs all of
    /// them, while letting writes through is tried on every one.
    pub fn note(&mut self, pause: bool, answer: Result<(), Status>) -> (goes_on: bool)
        ensures
            goes_on == !(pause && answer is Err),
            final(self).first_error == match (old(self).first_error, answer) {
                (Some(error), _) => Some(error),
                (None, Err(error)) => Some(error),
                (None, Ok(_)) => None,
            },
    {
        match answer {
            Ok(_) => true,
            Err(error) => {
                if self.first_error.is_none() {
                    self.first_error = Some(error);
                }
                !pause
            },
        }
    }

    /// The first refusal, if there was one.
    pub fn outcome(self) -> (r: Result<(), Status>)
        ensures
            match self.first_error {
                Some(error) => r == Err::<(), Status>(error),
                None => r is Ok,
            },
    {
        match self.first_error {
            Some(error) => Err(error),
            None => Ok(()),
        }
    }
}

/// New settings wait until every admitted follower has applied everything: one that lags keeps
/// its range from being ready.
pub proof fn law_one_lagging_copy_blocks_new_settings(
    t: SnapshotView,
    range: RangeView,
    followers: Seq<FollowerStatusView>,
    i: int,
)
    requires
        0 <= i < followers.len(),
        followers[i].admitted,
        followers[i].stream_cursor != followers[i].stream_head,
    ensures
        !t.range_ready(range, followers),
{
}

} // verus!
