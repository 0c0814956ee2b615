//! Which copies a published topology needs before its owners may serve.
use crate::cluster::{AdmissionView, ClusterState, ClusterView, RepairView, ReplicaRepair};
use crate::coverage::{policy_follower_count, ranges_of, required_merge_followers};
use crate::errors::{refusal, refused, Code, Status, StatusView};
use crate::merge::{Stream, StreamKey};
use crate::ordmap::MapKey;
use crate::repair_plan::{collect_group, group_views, repair_group};
use crate::ring::RangeView;
use crate::sets::{lemma_order_of, order_of, SortedSet};
use crate::text::{same_text, texts};
use crate::topology::{range_views, DerivedRange, SnapshotView, TopologySnapshot, WriteAckPolicy};
use crate::views::views;
use vstd::prelude::*;

verus! {

impl ClusterView {
    /// An admission says that a process holds a copy of a range in the committed epoch.
    pub open spec fn vouches(self, a: AdmissionView, range: RangeView, node: Seq<char>) -> bool {
        &&& a.epoch == self.committed.epoch
        &&& a.start_exclusive == range.start_exclusive
        &&& a.end_inclusive == range.end_inclusive
        &&& a.owner_node_id == range.owner_node_id
        &&& a.node_id == node
        &&& self.runs(node, a.process_instance_id)
    }

    /// A follower of a range is admitted.
    pub open spec fn admits(self, range: RangeView, node: Seq<char>) -> bool {
        exists|i: int|
            0 <= i < self.replica_admissions.len() && self.vouches(
                #[trigger] self.replica_admissions[i],
                range,
                node,
            )
    }

    /// A follower of a range is admitted, or its stream is among the chosen ones.
    pub open spec fn secured(self, range: RangeView, chosen: Set<Stream>, node: Seq<char>) -> bool {
        self.admits(range, node) || chosen.contains((range.owner_node_id, node))
    }

    /// How many of the first `n` followers of a range are admitted or chosen.
    pub open spec fn secured_count(self, range: RangeView, chosen: Set<Stream>, n: nat) -> nat
        decreases n,
    {
        if n == 0 {
            0
        } else {
            self.secured_count(range, chosen, (n - 1) as nat) + if self.secured(
                range,
                chosen,
                range.follower_node_ids[n - 1],
            ) {
                1nat
            } else {
                0
            }
        }
    }

    /// The chosen streams and those of the first `n` followers that are not admitted.
    pub open spec fn with_named(self, range: RangeView, chosen: Set<Stream>, n: nat) -> Set<Stream>
        decreases n,
    {
        if n == 0 {
            chosen
        } else {
            let rest = self.with_named(range, chosen, (n - 1) as nat);
            if self.admits(range, range.follower_node_ids[n - 1]) {
                rest
            } else {
                rest.insert((range.owner_node_id, range.follower_node_ids[n - 1]))
            }
        }
    }

    /// How many repairs a stream has.
    pub open spec fn group_size(self, owner: Seq<char>, node: Seq<char>) -> nat {
        repair_group(self.replica_repairs, (owner, node)).len()
    }

    /// The follower, among the first `n`, whose stream would complete most copies: one that is
    /// neither admitted nor chosen, the last of equals.
    pub open spec fn best_follower(self, range: RangeView, chosen: Set<Stream>, n: nat) -> Option<
        Seq<char>,
    >
        decreases n,
    {
        if n == 0 {
            None
        } else {
            let rest = self.best_follower(range, chosen, (n - 1) as nat);
            let node = range.follower_node_ids[n - 1];
            let size = self.group_size(range.owner_node_id, node);
            if self.secured(range, chosen, node) || size == 0 {
                rest
            } else if rest is Some && self.group_size(range.owner_node_id, rest->0) > size {
                rest
            } else {
                Some(node)
            }
        }
    }

    /// The chosen streams with as many more as a range still needs, if there are so many.
    pub open spec fn with_missing_followers(
        self,
        range: RangeView,
        chosen: Set<Stream>,
        missing: nat,
    ) -> Option<Set<Stream>>
        decreases missing,
    {
        if missing == 0 {
            Some(chosen)
        } else {
            match self.best_follower(range, chosen, range.follower_node_ids.len()) {
                None => None,
                Some(node) => self.with_missing_followers(
                    range,
                    chosen.insert((range.owner_node_id, node)),
                    (missing - 1) as nat,
                ),
            }
        }
    }

    /// The chosen streams with those that one range needs.
    pub open spec fn chosen_for(self, range: RangeView, chosen: Set<Stream>) -> Option<
        Set<Stream>,
    > {
        let f = range.follower_node_ids.len();
        let policy = self.committed.policy_followers();
        let named = self.with_named(range, chosen, if policy < f {
            policy
        } else {
            f
        });
        let covered = self.secured_count(range, named, f);
        let needed = self.committed.needed_followers();
        self.with_missing_followers(range, named, if covered < needed {
            (needed - covered) as nat
        } else {
            0
        })
    }

    /// The streams that the first `n` ranges need.
    pub open spec fn chosen_streams(self, ranges: Seq<RangeView>, n: nat) -> Option<Set<Stream>>
        decreases n,
    {
        if n == 0 {
            Some(Set::empty())
        } else {
            match self.chosen_streams(ranges, (n - 1) as nat) {
                None => None,
                Some(chosen) => self.chosen_for(ranges[n - 1], chosen),
            }
        }
    }

    /// A range has fewer followers than it needs.
    pub open spec fn too_few(self, ranges: Seq<RangeView>) -> bool {
        exists|i: int|
            0 <= i < ranges.len() && (#[trigger] ranges[i]).follower_node_ids.len()
                < self.committed.needed_followers()
    }

    /// One of these streams has nothing that repairs it.
    pub open spec fn lacks_group(self, streams: Seq<Stream>) -> bool {
        exists|i: int|
            0 <= i < streams.len() && repair_group(
                self.replica_repairs,
                #[trigger] streams[i],
            ).len() == 0
    }

    /// The repairs of these streams.
    pub open spec fn groups_of(self, streams: Seq<Stream>) -> Seq<Seq<RepairView>> {
        Seq::new(
            streams.len(),
            |i: int| repair_group(self.replica_repairs, streams[i]),
        )
    }

    /// The repairs that must be done before the committed topology is activated.
    pub open spec fn activation_plan(self) -> Result<Seq<Seq<RepairView>>, StatusView> {
        let ranges = self.committed.ranges();
        let chosen = self.chosen_streams(ranges, ranges.len());
        let unavailable = refusal(
            Code::Unavailable,
            "required target follower repair is unavailable"@,
        );
        if self.committed.range_fault() is Some {
            Err(self.committed.range_fault()->0)
        } else if self.too_few(ranges) {
            Err(
                refusal(
                    Code::FailedPrecondition,
                    "target range cannot satisfy the activation policy and copy guard"@,
                ),
            )
        } else if chosen is None || self.lacks_group(order_of::<StreamKey>(chosen->0)) {
            Err(unavailable)
        } else {
            Ok(self.groups_of(order_of::<StreamKey>(chosen->0)))
        }
    }

    /// A range has the copies that the policy and the guard of its topology ask for.
    pub open spec fn is_backed(self, range: RangeView) -> bool {
        let f = range.follower_node_ids.len();
        let policy = self.committed.policy_followers();
        &&& self.secured_count(range, Set::empty(), f) >= self.committed.needed_followers()
        &&& forall|k: int|
            0 <= k < f && k < policy ==> self.admits(range, #[trigger] range.follower_node_ids[k])
    }

    /// Every range has the copies that its topology asks for.
    pub open spec fn all_backed(self) -> bool {
        forall|i: int|
            0 <= i < self.committed.ranges().len() ==> self.is_backed(
                #[trigger] self.committed.ranges()[i],
            )
    }
}

impl ClusterState {
    fn admits(&self, range: &DerivedRange, node: &String) -> (r: bool)
        ensures
            r == self@.admits(range@, node@),
    {
        let ghost s = self@.replica_admissions;
        let mut i: usize = 0;
        while i < self.replica_admissions.len()
            invariant
                s == self@.replica_admissions,
                s == views(self.replica_admissions@),
                i <= self.replica_admissions@.len(),
                forall|j: int| 0 <= j < i ==> !self@.vouches(#[trigger] s[j], range@, node@),
            decreases self.replica_admissions.len() - i,
        {
            let a = &self.replica_admissions[i];
            proof {
                assert(s[i as int] == a@);
            }
            if a.epoch == self.committed.epoch && a.start_exclusive == range.start_exclusive
                && a.end_inclusive == range.end_inclusive && same_text(
                a.owner_node_id.as_str(),
                range.owner_node_id.as_str(),
            ) && same_text(a.node_id.as_str(), node.as_str()) && self.node_runs(
                node,
                a.process_instance_id.as_str(),
            ) {
                proof {
                    assert(self@.vouches(s[i as int], range@, node@));
                }
                return true;
            }
            i = i + 1;
        }
        false
    }

    fn secured(&self, range: &DerivedRange, chosen: &SortedSet<StreamKey>, node: &String) -> (r:
        bool)
        ensures
            r == self@.secured(range@, chosen@, node@),
    {
        let key: StreamKey = (range.owner_node_id.clone(), node.clone());
        proof {
            assert(key.id() == (range.owner_node_id@, node@));
        }
        chosen.contains(&key) || self.admits(range, node)
    }

    fn count_secured(&self, range: &DerivedRange, chosen: &SortedSet<StreamKey>) -> (r: usize)
        ensures
            r == self@.secured_count(range@, chosen@, range.follower_node_ids@.len()),
    {
        let ghost f = range@.follower_node_ids;
        let mut count: usize = 0;
        let mut i: usize = 0;
        while i < range.follower_node_ids.len()
            invariant
                f == range@.follower_node_ids,
                f == texts(range.follower_node_ids@),
                i <= range.follower_node_ids@.len(),
                count <= i,
                count == self@.secured_count(range@, chosen@, i as nat),
            decreases range.follower_node_ids.len() - i,
        {
            proof {
                assert(f[i as int] == range.follower_node_ids@[i as int]@);
            }
            if self.secured(range, chosen, &range.follower_node_ids[i]) {
                count = count + 1;
            }
            i = i + 1;
        }
        count
    }

    fn choose_named(
        &self,
        range: &DerivedRange,
        count: usize,
        chosen: &mut SortedSet<StreamKey>,
    )
        requires
            count <= range.follower_node_ids@.len(),
        ensures
            final(chosen)@ == self@.with_named(range@, old(chosen)@, count as nat),
    {
        let ghost f = range@.follower_node_ids;
        let ghost before = chosen@;
        let mut i: usize = 0;
        while i < count
            invariant
                f == range@.follower_node_ids,
                f == texts(range.follower_node_ids@),
                i <= count <= range.follower_node_ids@.len(),
                chosen@ == self@.with_named(range@, before, i as nat),
            decreases count - i,
        {
            let node = &range.follower_node_ids[i];
            proof {
                assert(f[i as int] == node@);
            }
            if !self.admits(range, node) {
                let key: StreamKey = (range.owner_node_id.clone(), node.clone());
                proof {
                    assert(key.id() == (range.owner_node_id@, node@));
                }
                let _ = chosen.insert(key);
            }
            i = i + 1;
        }
    }

    fn size_of_group(&self, owner: &String, node: &String) -> (r: usize)
        ensures
            r == self@.group_size(owner@, node@),
    {
        let key: StreamKey = (owner.clone(), node.clone());
        let group = collect_group(&self.replica_repairs, &key);
        proof {
            assert(key.id() == (owner@, node@));
            assert(views(group@).len() == group@.len());
        }
        group.len()
    }

    fn best_follower(&self, range: &DerivedRange, chosen: &SortedSet<StreamKey>) -> (r: Option<
        String,
    >)
        ensures
            crate::views::opt(r) == self@.best_follower(
                range@,
                chosen@,
                range.follower_node_ids@.len(),
            ),
    {
        let ghost f = range@.follower_node_ids;
        let mut best: Option<String> = None;
        let mut most: usize = 0;
        let mut i: usize = 0;
        while i < range.follower_node_ids.len()
            invariant
                f == range@.follower_node_ids,
                f == texts(range.follower_node_ids@),
                i <= range.follower_node_ids@.len(),
                crate::views::opt(best) == self@.best_follower(range@, chosen@, i as nat),
                best matches Some(b) ==> most == self@.group_size(range@.owner_node_id, b@),
            decreases range.follower_node_ids.len() - i,
        {
            let node = &range.follower_node_ids[i];
            proof {
                assert(f[i as int] == node@);
            }
            let size = self.size_of_group(&range.owner_node_id, node);
            if !self.secured(range, chosen, node) && size > 0 && (best.is_none() || most <= size) {
                best = Some(node.clone());
                most = size;
            }
            i = i + 1;
        }
        best
    }

    fn choose_for(&self, range: &DerivedRange, chosen: &mut SortedSet<StreamKey>) -> (r: bool)
        requires
            self@.committed.counts_followers(),
        ensures
            match self@.chosen_for(range@, old(chosen)@) {
                Some(set) => r && final(chosen)@ == set,
                None => !r,
            },
    {
        let ghost before = chosen@;
        let policy = policy_follower_count(&self.committed);
        let needed = required_merge_followers(&self.committed);
        let f = range.follower_node_ids.len();
        proof {
            assert(range@.follower_node_ids.len() == f);
        }
        let count = if policy < f {
            policy
        } else {
            f
        };
        self.choose_named(range, count, chosen);
        let covered = self.count_secured(range, chosen);
        let mut missing: usize = if covered < needed {
            needed - covered
        } else {
            0
        };
        let ghost whole = self@.with_missing_followers(range@, chosen@, missing as nat);
        proof {
            assert(whole == self@.chosen_for(range@, before));
        }
        while missing > 0
            invariant
                whole == self@.with_missing_followers(range@, chosen@, missing as nat),
                whole == self@.chosen_for(range@, old(chosen)@),
                range@.follower_node_ids.len() == range.follower_node_ids@.len(),
            decreases missing,
        {
            match self.best_follower(range, chosen) {
                None => return false,
                Some(node) => {
                    let key: StreamKey = (range.owner_node_id.clone(), node.clone());
                    proof {
                        assert(key.id() == (range.owner_node_id@, node@));
                    }
                    let _ = chosen.insert(key);
                },
            }
            missing = missing - 1;
        }
        true
    }

    /// Picks the repairs that must be done before the committed topology is activated: the
    /// followers that the acknowledgement policy names, and as many more as the guard asks for.
    pub fn seed_repairs_for_activation(&self) -> (r: Result<Vec<Vec<ReplicaRepair>>, Status>)
        requires
            self@.committed.counts_followers(),
        ensures
            match r {
                Ok(groups) => self@.activation_plan() == Ok::<Seq<Seq<RepairView>>, StatusView>(
                    group_views(groups@),
                ),
                Err(status) => self@.activation_plan() == Err::<Seq<Seq<RepairView>>, StatusView>(
                    status@,
                ),
            },
    {
        let needed = required_merge_followers(&self.committed);
        let ranges = match ranges_of(&self.committed) {
            Ok(ranges) => ranges,
            Err(status) => return Err(status),
        };
        let ghost s = range_views(ranges@);
        let mut i: usize = 0;
        while i < ranges.len()
            invariant
                s == range_views(ranges@),
                s == self@.committed.ranges(),
                self@.committed.range_fault() is None,
                needed == self@.committed.needed_followers(),
                i <= ranges@.len(),
                forall|j: int|
                    0 <= j < i ==> (#[trigger] s[j]).follower_node_ids.len() >= needed,
            decreases ranges.len() - i,
        {
            proof {
                assert(s[i as int] == ranges@[i as int]@);
                assert(s[i as int].follower_node_ids.len()
                    == ranges@[i as int].follower_node_ids@.len());
            }
            if ranges[i].follower_node_ids.len() < needed {
                return Err(
                    Status::new(
                        Code::FailedPrecondition,
                        "target range cannot satisfy the activation policy and copy guard",
                    ),
                );
            }
            i = i + 1;
        }
        let mut chosen: SortedSet<StreamKey> = SortedSet::new();
        let mut i: usize = 0;
        while i < ranges.len()
            invariant
                s == range_views(ranges@),
                s == self@.committed.ranges(),
                self@.committed.range_fault() is None,
                self@.committed.counts_followers(),
                !self@.too_few(s),
                i <= ranges@.len(),
                self@.chosen_streams(s, i as nat) == Some(chosen@),
            decreases ranges.len() - i,
        {
            proof {
                assert(s[i as int] == ranges@[i as int]@);
            }
            if !self.choose_for(&ranges[i], &mut chosen) {
                proof {
                    lemma_choice_stops(self@, s, i as nat + 1, s.len());
                }
                return Err(
                    Status::new(
                        Code::Unavailable,
                        "required target follower repair is unavailable",
                    ),
                );
            }
            i = i + 1;
        }
        chosen.items.expose();
        let ghost q = order_of::<StreamKey>(chosen@);
        proof {
            lemma_order_of(chosen);
        }
        let mut groups: Vec<Vec<ReplicaRepair>> = Vec::new();
        let mut i: usize = 0;
        while i < chosen.len()
            invariant
                s == self@.committed.ranges(),
                self@.committed.range_fault() is None,
                !self@.too_few(s),
                self@.chosen_streams(s, s.len()) == Some(chosen@),
                q == order_of::<StreamKey>(chosen@),
                q.len() == chosen.items.sequence().len(),
                forall|j: int| 0 <= j < q.len() ==> q[j] == chosen.items.sequence()[j].0,
                i <= q.len(),
                groups@.len() == i,
                forall|j: int|
                    0 <= j < i ==> views((#[trigger] groups@[j])@) == repair_group(
                        self@.replica_repairs,
                        q[j],
                    ),
                forall|j: int|
                    0 <= j < i ==> repair_group(self@.replica_repairs, #[trigger] q[j]).len() > 0,
            decreases q.len() - i,
        {
            let stream = chosen.at(i);
            let group = collect_group(&self.replica_repairs, stream);
            proof {
                assert(stream.id() == q[i as int]);
                assert(views(group@).len() == group@.len());
            }
            if group.len() == 0 {
                proof {
                    assert(self@.lacks_group(q));
                }
                return Err(
                    Status::new(
                        Code::Unavailable,
                        "required target follower repair is unavailable",
                    ),
                );
            }
            groups.push(group);
            i = i + 1;
        }
        proof {
            assert(group_views(groups@) =~= self@.groups_of(q));
        }
        Ok(groups)
    }

    /// Checks that every range has the copies that its topology asks for.
    pub fn check_activation(&self) -> (r: Result<(), Status>)
        requires
            self@.committed.counts_followers(),
        ensures
            refused(r) == if self@.committed.range_fault() is Some {
                self@.committed.range_fault()
            } else if !self@.all_backed() {
                Some(
                    refusal(
                        Code::Unavailable,
                        "required target followers are not all admitted"@,
                    ),
                )
            } else {
                None
            },
    {
        let needed = required_merge_followers(&self.committed);
        let policy = policy_follower_count(&self.committed);
        let ranges = match ranges_of(&self.committed) {
            Ok(ranges) => ranges,
            Err(status) => return Err(status),
        };
        let none: SortedSet<StreamKey> = SortedSet::new();
        let ghost s = range_views(ranges@);
        let mut i: usize = 0;
        while i < ranges.len()
            invariant
                s == range_views(ranges@),
                s == self@.committed.ranges(),
                self@.committed.range_fault() is None,
                needed == self@.committed.needed_followers(),
                policy == self@.committed.policy_followers(),
                none@ == Set::<Stream>::empty(),
                i <= ranges@.len(),
                forall|j: int| 0 <= j < i ==> self@.is_backed(#[trigger] s[j]),
            decreases ranges.len() - i,
        {
            let range = &ranges[i];
            proof {
                assert(s[i as int] == range@);
                assert(range@.follower_node_ids.len() == range.follower_node_ids@.len());
            }
            if self.count_secured(range, &none) < needed || !self.named_admitted(range, policy) {
                proof {
                    assert(!self@.is_backed(s[i as int]));
                }
                return Err(
                    Status::new(
                        Code::Unavailable,
                        "required target followers are not all admitted",
                    ),
                );
            }
            i = i + 1;
        }
        Ok(())
    }

    fn named_admitted(&self, range: &DerivedRange, policy: usize) -> (r: bool)
        ensures
            r == forall|k: int|
                0 <= k < range@.follower_node_ids.len() && k < policy ==> self@.admits(
                    range@,
                    #[trigger] range@.follower_node_ids[k],
                ),
    {
        let ghost f = range@.follower_node_ids;
        let mut k: usize = 0;
        while k < range.follower_node_ids.len() && k < policy
            invariant
                f == range@.follower_node_ids,
                f == texts(range.follower_node_ids@),
                k <= range.follower_node_ids@.len(),
                forall|j: int| 0 <= j < k ==> self@.admits(range@, #[trigger] f[j]),
            decreases range.follower_node_ids.len() - k,
        {
            proof {
                assert(f[k as int] == range.follower_node_ids@[k as int]@);
            }
            if !self.admits(range, &range.follower_node_ids[k]) {
                proof {
                    assert(!self@.admits(range@, f[k as int]));
                }
                return false;
            }
            k = k + 1;
        }
        true
    }
}

proof fn lemma_choice_stops(v: ClusterView, ranges: Seq<RangeView>, i: nat, n: nat)
    requires
        i <= n,
        v.chosen_streams(ranges, i) is None,
    ensures
        v.chosen_streams(ranges, n) is None,
    decreases n,
{
    if i < n {
        lemma_choice_stops(v, ranges, i, (n - 1) as nat);
    }
}

/// Whether a topology has to wait for copies before its owners may serve.
pub open spec fn waits_for_copies(t: SnapshotView) -> bool {
    ||| t.write_ack_policy != WriteAckPolicy::OwnerOnly
    ||| t.write_availability_guard.minimum_admitted_copies > 1
    ||| t.write_availability_guard.minimum_healthy_followers > 0
}

/// Tells whether a topology has to wait for copies before its owners may serve.
pub fn needs_replica_barrier(t: &TopologySnapshot) -> (r: bool)
    ensures
        r == waits_for_copies(t@),
{
    t.write_ack_policy != WriteAckPolicy::OwnerOnly
        || t.write_availability_guard.minimum_admitted_copies > 1
        || t.write_availability_guard.minimum_healthy_followers > 0
}

/// Where owners may serve without waiting for copies, no follower is needed.
pub proof fn law_no_barrier_needs_no_follower(t: SnapshotView)
    requires
        !waits_for_copies(t),
    ensures
        t.needed_followers() == 0,
{
}

} // verus!
