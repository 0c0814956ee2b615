//! Which repairs are run next, and which must be done before a topology is activated.
use crate::cluster::{ClusterState, ClusterView, RepairView, ReplicaRepair, ReplicaRepairPhase};
use crate::errors::{Status, StatusView};
use crate::merge::{Stream, StreamKey};
use crate::ordmap::MapKey;
use crate::publish::{align, aligned};
use crate::reconcile::{lemma_sifted_prefix, sifted};
use crate::recovery::maybe_next;
use crate::sets::{lemma_order_of, order_of, SortedSet};
use crate::text::same_text;
use crate::topology::Member;
use crate::views::{duplicate_all, lemma_views_push, views};
use vstd::prelude::*;

verus! {

/// How many streams are repaired in one pass.
pub const MAX_REPAIR_GROUPS_PER_PASS: usize = 32;

/// Repairs of one stream, whatever their epoch.
pub open spec fn between(stream: Stream) -> spec_fn(RepairView) -> bool {
    |r: RepairView| r.owner_node_id == stream.0 && r.node_id == stream.1
}

/// The repairs of one stream.
pub open spec fn repair_group(list: Seq<RepairView>, stream: Stream) -> Seq<RepairView> {
    sifted(list, between(stream))
}

/// Picks the repairs of one stream.
pub fn collect_group(list: &Vec<ReplicaRepair>, stream: &StreamKey) -> (r: Vec<ReplicaRepair>)
    ensures
        views(r@) == repair_group(views(list@), stream.id()),
{
    let ghost s = views(list@);
    let ghost p = between(stream.id());
    let mut r: Vec<ReplicaRepair> = Vec::new();
    let mut i: usize = 0;
    proof {
        assert(s.subrange(0, 0) =~= Seq::empty());
        assert(views(r@) =~= Seq::empty());
    }
    while i < list.len()
        invariant
            s == views(list@),
            p == between(stream.id()),
            i <= list@.len(),
            views(r@) == sifted(s.subrange(0, i as int), p),
        decreases list.len() - i,
    {
        let repair = &list[i];
        proof {
            assert(s[i as int] == repair@);
            lemma_sifted_prefix(s, i as int, p);
        }
        if same_text(repair.owner_node_id.as_str(), stream.0.as_str()) && same_text(
            repair.node_id.as_str(),
            stream.1.as_str(),
        ) {
            proof {
                lemma_views_push(r@, *repair);
            }
            r.push(repair.clone());
        }
        i = i + 1;
    }
    proof {
        assert(s.subrange(0, s.len() as int) =~= s);
    }
    r
}

impl ClusterView {
    /// The streams, among those of the first `n` repairs, whose ends are both registered.
    pub open spec fn registered_streams(self, n: nat) -> Set<Stream>
        decreases n,
    {
        if n == 0 {
            Set::empty()
        } else {
            let rest = self.registered_streams((n - 1) as nat);
            let r = self.replica_repairs[n - 1];
            if self.process_instances.contains_key(r.owner_node_id)
                && self.process_instances.contains_key(r.node_id) {
                rest.insert((r.owner_node_id, r.node_id))
            } else {
                rest
            }
        }
    }

    /// A repair that was interrupted begins anew.
    pub open spec fn all_pending(self) -> ClusterView {
        ClusterView {
            replica_repairs: Seq::new(
                self.replica_repairs.len(),
                |i: int|
                    if self.replica_repairs[i].phase is Complete {
                        self.replica_repairs[i]
                    } else {
                        RepairView {
                            phase: ReplicaRepairPhase::Pending,
                            ..self.replica_repairs[i]
                        }
                    },
            ),
            ..self
        }
    }
}

impl ClusterView {
    /// The state with which repairs go on: nothing while a change is under way, and otherwise
    /// every repair that is not complete begins anew.
    pub open spec fn resumed(self) -> Result<Option<ClusterView>, StatusView> {
        if self.changing() {
            Ok(None)
        } else {
            match aligned(self) {
                Ok(next) => Ok(Some(next.all_pending())),
                Err(status) => Err(status),
            }
        }
    }
}

/// A stream has something to repair, and nothing of it waits for a later attempt.
pub open spec fn is_due(group: Seq<RepairView>, now: u64) -> bool {
    &&& exists|i: int| 0 <= i < group.len() && (#[trigger] group[i]).phase is Pending
    &&& forall|i: int|
        0 <= i < group.len() ==> (#[trigger] group[i]).phase is Complete
            || group[i].next_attempt_unix_millis <= now
}

fn group_is_due(group: &Vec<ReplicaRepair>, now: u64) -> (r: bool)
    ensures
        r == is_due(views(group@), now),
{
    let ghost s = views(group@);
    let mut pending = false;
    let mut i: usize = 0;
    while i < group.len()
        invariant
            s == views(group@),
            i <= group@.len(),
            pending == exists|j: int| 0 <= j < i && (#[trigger] s[j]).phase is Pending,
            forall|j: int|
                0 <= j < i ==> (#[trigger] s[j]).phase is Complete || s[j].next_attempt_unix_millis
                    <= now,
        decreases group.len() - i,
    {
        proof {
            assert(s[i as int] == group@[i as int]@);
        }
        if group[i].phase == ReplicaRepairPhase::Pending {
            pending = true;
        }
        if group[i].phase != ReplicaRepairPhase::Complete && group[i].next_attempt_unix_millis
            > now {
            return false;
        }
        i = i + 1;
    }
    pending
}

/// The most failures of a repair among the first `n`.
pub open spec fn most_retries(group: Seq<RepairView>, n: nat) -> u32
    decreases n,
{
    if n == 0 {
        0
    } else {
        let rest = most_retries(group, (n - 1) as nat);
        if group[n - 1].retry_count > rest {
            group[n - 1].retry_count
        } else {
            rest
        }
    }
}

fn count_retries(group: &Vec<ReplicaRepair>) -> (r: u32)
    ensures
        r == most_retries(views(group@), group@.len()),
{
    let ghost s = views(group@);
    let mut most: u32 = 0;
    let mut i: usize = 0;
    while i < group.len()
        invariant
            s == views(group@),
            i <= group@.len(),
            most == most_retries(s, i as nat),
        decreases group.len() - i,
    {
        proof {
            assert(s[i as int] == group@[i as int]@);
        }
        if group[i].retry_count > most {
            most = group[i].retry_count;
        }
        i = i + 1;
    }
    most
}

/// Groups of repairs.
pub open spec fn group_views(groups: Seq<Vec<ReplicaRepair>>) -> Seq<Seq<RepairView>> {
    Seq::new(groups.len(), |i: int| views(groups[i]@))
}

/// The groups of the first `n` streams that are due.
pub open spec fn due_groups(
    list: Seq<RepairView>,
    streams: Seq<Stream>,
    now: u64,
    n: nat,
) -> Seq<Seq<RepairView>>
    decreases n,
{
    if n == 0 {
        Seq::empty()
    } else {
        let rest = due_groups(list, streams, now, (n - 1) as nat);
        let group = repair_group(list, streams[n - 1]);
        if is_due(group, now) {
            rest.push(group)
        } else {
            rest
        }
    }
}

/// How many of the first `n` groups have failed at most `limit` times, from the front on.
pub open spec fn place_for(groups: Seq<Seq<RepairView>>, limit: u32, n: nat) -> nat
    decreases n,
{
    if n == 0 || most_retries(groups[n - 1], groups[n - 1].len()) <= limit {
        n
    } else {
        place_for(groups, limit, (n - 1) as nat)
    }
}

/// The first `n` groups, those with the fewest failures first, others in their order.
pub open spec fn by_retries(groups: Seq<Seq<RepairView>>, n: nat) -> Seq<Seq<RepairView>>
    decreases n,
{
    if n == 0 {
        Seq::empty()
    } else {
        let rest = by_retries(groups, (n - 1) as nat);
        let group = groups[n - 1];
        rest.insert(
            place_for(rest, most_retries(group, group.len()), rest.len()) as int,
            group,
        )
    }
}

/// At most so many groups.
pub open spec fn first_groups(groups: Seq<Seq<RepairView>>) -> Seq<Seq<RepairView>> {
    if groups.len() <= MAX_REPAIR_GROUPS_PER_PASS {
        groups
    } else {
        groups.subrange(0, MAX_REPAIR_GROUPS_PER_PASS as int)
    }
}

impl ClusterView {
    /// The repairs of the next pass.
    pub open spec fn next_repairs(self, now: u64) -> Seq<Seq<RepairView>> {
        let streams = order_of::<StreamKey>(
            self.registered_streams(self.replica_repairs.len()),
        );
        let due = due_groups(self.replica_repairs, streams, now, streams.len());
        first_groups(by_retries(due, due.len()))
    }
}

pub proof fn lemma_place_for(groups: Seq<Seq<RepairView>>, limit: u32, n: nat)
    ensures
        place_for(groups, limit, n) <= n,
    decreases n,
{
    if n > 0 && !(most_retries(groups[n - 1], groups[n - 1].len()) <= limit) {
        lemma_place_for(groups, limit, (n - 1) as nat);
    }
}

proof fn lemma_by_retries_len(groups: Seq<Seq<RepairView>>, n: nat)
    ensures
        by_retries(groups, n).len() == n,
    decreases n,
{
    if n > 0 {
        lemma_by_retries_len(groups, (n - 1) as nat);
        let rest = by_retries(groups, (n - 1) as nat);
        let group = groups[n - 1];
        lemma_place_for(rest, most_retries(group, group.len()), rest.len());
    }
}

fn sort_groups(groups: Vec<Vec<ReplicaRepair>>) -> (r: Vec<Vec<ReplicaRepair>>)
    ensures
        group_views(r@) == by_retries(group_views(groups@), groups@.len()),
{
    let ghost g = group_views(groups@);
    let mut r: Vec<Vec<ReplicaRepair>> = Vec::new();
    let mut i: usize = 0;
    proof {
        assert(group_views(r@) =~= by_retries(g, 0));
    }
    while i < groups.len()
        invariant
            g == group_views(groups@),
            i <= groups@.len(),
            group_views(r@) == by_retries(g, i as nat),
        decreases groups.len() - i,
    {
        let group = duplicate_all(&groups[i]);
        let limit = count_retries(&group);
        let ghost rest = group_views(r@);
        proof {
            assert(g[i as int] == views(groups@[i as int]@));
            assert(views(group@).len() == group@.len());
            assert(rest.len() == r@.len());
        }
        let mut at: usize = r.len();
        while at > 0 && count_retries(&r[at - 1]) > limit
            invariant
                rest == group_views(r@),
                rest.len() == r@.len(),
                at <= r@.len(),
                place_for(rest, limit, rest.len()) == place_for(rest, limit, at as nat),
            decreases at,
        {
            proof {
                assert(rest[at - 1] == views(r@[at - 1]@));
                assert(views(r@[at - 1]@).len() == r@[at - 1]@.len());
            }
            at = at - 1;
        }
        proof {
            if at > 0 {
                assert(rest[at - 1] == views(r@[at - 1]@));
                assert(views(r@[at - 1]@).len() == r@[at - 1]@.len());
            }
            assert(place_for(rest, limit, rest.len()) == at);
        }
        let ghost added = views(group@);
        r.insert(at, group);
        proof {
            assert(group_views(r@) =~= rest.insert(at as int, added));
            assert(group_views(r@) =~= by_retries(g, (i + 1) as nat));
        }
        i = i + 1;
    }
    r
}

impl ClusterState {
    fn registered_streams(&self) -> (r: SortedSet<StreamKey>)
        ensures
            r@ == self@.registered_streams(self@.replica_repairs.len()),
    {
        let ghost s = self@.replica_repairs;
        let mut r: SortedSet<StreamKey> = SortedSet::new();
        let mut i: usize = 0;
        while i < self.replica_repairs.len()
            invariant
                s == self@.replica_repairs,
                s == views(self.replica_repairs@),
                i <= self.replica_repairs@.len(),
                r@ == self@.registered_streams(i as nat),
            decreases self.replica_repairs.len() - i,
        {
            let repair = &self.replica_repairs[i];
            proof {
                assert(s[i as int] == repair@);
            }
            if self.process_instances.contains(&repair.owner_node_id)
                && self.process_instances.contains(&repair.node_id) {
                let key: StreamKey = (repair.owner_node_id.clone(), repair.node_id.clone());
                proof {
                    assert(key.id() == (repair.owner_node_id@, repair.node_id@));
                }
                let _ = r.insert(key);
            }
            i = i + 1;
        }
        r
    }

    /// Picks the repairs of the next pass, grouped by stream: those with the fewest failures
    /// first.
    pub fn next_repairs(&self, now: u64) -> (r: Vec<Vec<ReplicaRepair>>)
        ensures
            group_views(r@) == self@.next_repairs(now),
    {
        let streams = self.registered_streams();
        streams.items.expose();
        let ghost q = order_of::<StreamKey>(streams@);
        proof {
            lemma_order_of(streams);
        }
        let ghost list = self@.replica_repairs;
        let mut due: Vec<Vec<ReplicaRepair>> = Vec::new();
        let mut i: usize = 0;
        proof {
            assert(group_views(due@) =~= due_groups(list, q, now, 0));
        }
        while i < streams.len()
            invariant
                list == self@.replica_repairs,
                q.len() == streams.items.sequence().len(),
                forall|j: int| 0 <= j < q.len() ==> q[j] == streams.items.sequence()[j].0,
                i <= q.len(),
                group_views(due@) == due_groups(list, q, now, i as nat),
            decreases q.len() - i,
        {
            let stream = streams.at(i);
            let group = collect_group(&self.replica_repairs, stream);
            proof {
                assert(stream.id() == q[i as int]);
            }
            if group_is_due(&group, now) {
                let ghost before = group_views(due@);
                let ghost added = views(group@);
                due.push(group);
                proof {
                    assert(group_views(due@) =~= before.push(added));
                }
            }
            i = i + 1;
        }
        proof {
            assert(group_views(due@).len() == due@.len());
            lemma_by_retries_len(group_views(due@), due@.len());
        }
        let mut sorted = sort_groups(due);
        let ghost whole = group_views(sorted@);
        proof {
            assert(whole.len() == sorted@.len());
        }
        if sorted.len() > MAX_REPAIR_GROUPS_PER_PASS {
            sorted.truncate(MAX_REPAIR_GROUPS_PER_PASS);
        }
        proof {
            assert(group_views(sorted@) =~= first_groups(whole));
        }
        sorted
    }

    /// Brings repairs in line with the topology, and begins interrupted ones anew; nothing
    /// while a change is under way.
    pub fn resume_replica_repairs(&self) -> (r: Result<Option<ClusterState>, Status>)
        ensures
            maybe_next(r) == self@.resumed(),
    {
        if self.is_changing() {
            return Ok(None);
        }
        let mut next = match align(self.clone()) {
            Ok(next) => next,
            Err(status) => return Err(status),
        };
        let ghost before = next@;
        let mut repairs: Vec<ReplicaRepair> = Vec::new();
        let mut i: usize = 0;
        while i < next.replica_repairs.len()
            invariant
                before == next@,
                i <= next.replica_repairs@.len(),
                repairs@.len() == i,
                before.replica_repairs == views(next.replica_repairs@),
                forall|j: int|
                    0 <= j < i ==> (#[trigger] repairs@[j])@
                        == before.all_pending().replica_repairs[j],
            decreases next.replica_repairs.len() - i,
        {
            let mut repair = next.replica_repairs[i].clone();
            proof {
                assert(before.replica_repairs[i as int] == repair@);
            }
            if repair.phase != ReplicaRepairPhase::Complete {
                repair.phase = ReplicaRepairPhase::Pending;
            }
            repairs.push(repair);
            i = i + 1;
        }
        next.replica_repairs = repairs;
        proof {
            assert(views(repairs@) =~= before.all_pending().replica_repairs);
            assert(next@ =~= before.all_pending());
        }
        Ok(Some(next))
    }
}

impl ClusterView {
    /// A node takes part in a repair that was interrupted.
    pub open spec fn interrupted(self, node: Seq<char>) -> bool {
        !self.fenced_nodes.contains(node) && exists|i: int|
            0 <= i < self.replica_repairs.len() && ((#[trigger] self.replica_repairs[i]).phase is Copying
                || self.replica_repairs[i].phase is Verifying) && (
            self.replica_repairs[i].owner_node_id == node || self.replica_repairs[i].node_id
                == node)
    }
}

/// Members that take part in interrupted repairs.
pub open spec fn is_interrupted(s: ClusterView) -> spec_fn(Member) -> bool {
    |m: Member| s.interrupted(m.node_id@)
}

impl ClusterState {
    fn takes_part(&self, node: &String) -> (r: bool)
        ensures
            r == self@.interrupted(node@),
    {
        let ghost s = self@.replica_repairs;
        if self.fenced_nodes.contains(node) {
            return false;
        }
        let mut i: usize = 0;
        while i < self.replica_repairs.len()
            invariant
                s == self@.replica_repairs,
                s == views(self.replica_repairs@),
                !self@.fenced_nodes.contains(node@),
                i <= self.replica_repairs@.len(),
                forall|j: int|
                    0 <= j < i ==> !(((#[trigger] s[j]).phase is Copying || s[j].phase is Verifying)
                        && (s[j].owner_node_id == node@ || s[j].node_id == node@)),
            decreases self.replica_repairs.len() - i,
        {
            let repair = &self.replica_repairs[i];
            proof {
                assert(s[i as int] == repair@);
            }
            if (repair.phase == ReplicaRepairPhase::Copying || repair.phase
                == ReplicaRepairPhase::Verifying) && (same_text(
                repair.owner_node_id.as_str(),
                node.as_str(),
            ) || same_text(repair.node_id.as_str(), node.as_str())) {
                return true;
            }
            i = i + 1;
        }
        false
    }

    /// Lists the members that have to drop what interrupted repairs have left.
    pub fn interrupted_members(&self) -> (r: Vec<Member>)
        ensures
            r@ == sifted(self.committed.members@, is_interrupted(self@)),
    {
        let ghost s = self.committed.members@;
        let ghost p = is_interrupted(self@);
        let mut r: Vec<Member> = Vec::new();
        let mut i: usize = 0;
        proof {
            assert(s.subrange(0, 0) =~= Seq::empty());
            assert(r@ =~= Seq::empty());
        }
        while i < self.committed.members.len()
            invariant
                s == self.committed.members@,
                p == is_interrupted(self@),
                i <= s.len(),
                r@ == sifted(s.subrange(0, i as int), p),
            decreases s.len() - i,
        {
            proof {
                lemma_sifted_prefix(s, i as int, p);
            }
            if self.takes_part(&self.committed.members[i].node_id) {
                r.push(self.committed.members[i].clone());
            }
            i = i + 1;
        }
        proof {
            assert(s.subrange(0, s.len() as int) =~= s);
        }
        r
    }
}

} // verus!
