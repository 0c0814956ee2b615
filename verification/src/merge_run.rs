//! Running a merge: which streams to complete, which admissions to keep.
use crate::changes::{change_identity, IdentityView};
use crate::cluster::{
    AdmissionView, ClusterState, ClusterView, RepairView, ReplicaAdmission, ReplicaRepair,
};
use crate::coverage::{constituents, parts, ranges_of, required_merge_followers};
use crate::errors::{refusal, Code, Status, StatusView};
use crate::merge::{absorb, CandidateView, MergeProof, Stream, StreamKey};
use crate::migration::TopologyChange;
use crate::node_checkpoint::ReplicationProgress;
use crate::ordmap::{entry_index, lemma_entry, shown, unique_entries, MapKey, SortedMap};
use crate::reconcile::{lemma_sifted_prefix, sifted};
use crate::ring::RangeView;
use crate::sets::SortedSet;
use crate::text::{joined, same_text, texts};
use crate::topology::{range_views, DerivedRange, SnapshotView};
use crate::views::{lemma_views_push, views};
use vstd::prelude::*;

verus! {

impl ClusterView {
    /// The streams on which a node lacks copies of the first `n` of these ranges.
    pub open spec fn gaps_into(self, list: Seq<RangeView>, node: Seq<char>, n: nat) -> Set<Stream>
        decreases n,
    {
        if n == 0 {
            Set::empty()
        } else {
            let rest = self.gaps_into(list, node, (n - 1) as nat);
            if list[n - 1].owner_node_id != node && !self.covers(list[n - 1], node) {
                rest.insert((list[n - 1].owner_node_id, node))
            } else {
                rest
            }
        }
    }

    /// The streams on which the owner and the first `n` followers of a merged range lack copies.
    pub open spec fn range_gaps(self, range: RangeView, n: nat) -> Set<Stream>
        decreases n,
    {
        let list = parts(self.committed.ranges(), range);
        if n == 0 {
            self.gaps_into(list, range.owner_node_id, list.len())
        } else {
            self.range_gaps(range, (n - 1) as nat).union(
                self.gaps_into(list, range.follower_node_ids[n - 1], list.len()),
            )
        }
    }

    /// The streams that the first `n` merged ranges need and that lack copies.
    pub open spec fn merge_gaps(self, ranges: Seq<RangeView>, needed: nat, n: nat) -> Set<Stream>
        decreases n,
    {
        if n == 0 {
            Set::empty()
        } else {
            let f = ranges[n - 1].follower_node_ids.len();
            self.merge_gaps(ranges, needed, (n - 1) as nat).union(
                self.range_gaps(ranges[n - 1], if f < needed {
                    f
                } else {
                    needed
                }),
            )
        }
    }
}

impl ClusterState {
    fn add_gaps_into(
        &self,
        list: &Vec<&DerivedRange>,
        node: &String,
        missing: &mut SortedSet<StreamKey>,
    )
        ensures
            final(missing)@ == old(missing)@.union(
                self@.gaps_into(views(list@), node@, list@.len()),
            ),
    {
        let ghost s = views(list@);
        let ghost before = missing@;
        let mut i: usize = 0;
        proof {
            assert(missing@ =~= before.union(self@.gaps_into(s, node@, 0)));
        }
        while i < list.len()
            invariant
                s == views(list@),
                i <= list@.len(),
                missing@ == before.union(self@.gaps_into(s, node@, i as nat)),
            decreases list.len() - i,
        {
            let part = list[i];
            proof {
                assert(s[i as int] == part@);
            }
            if !same_text(part.owner_node_id.as_str(), node.as_str()) && self.admission_for(
                part,
                node,
            ).is_none() {
                let key: StreamKey = (part.owner_node_id.clone(), node.clone());
                proof {
                    assert(key.id() == (part.owner_node_id@, node@));
                }
                let _ = missing.insert(key);
            }
            proof {
                assert(missing@ =~= before.union(self@.gaps_into(s, node@, (i + 1) as nat)));
            }
            i = i + 1;
        }
    }

    fn add_range_gaps(
        &self,
        old_ranges: &Vec<DerivedRange>,
        range: &DerivedRange,
        count: usize,
        missing: &mut SortedSet<StreamKey>,
    )
        requires
            range_views(old_ranges@) == self@.committed.ranges(),
            count <= range.follower_node_ids@.len(),
        ensures
            final(missing)@ == old(missing)@.union(self@.range_gaps(range@, count as nat)),
    {
        let ghost f = range@.follower_node_ids;
        let ghost before = missing@;
        let list = constituents(old_ranges, range);
        proof {
            assert(views(list@).len() == list@.len());
        }
        self.add_gaps_into(&list, &range.owner_node_id, missing);
        let mut k: usize = 0;
        while k < count
            invariant
                f == range@.follower_node_ids,
                f == texts(range.follower_node_ids@),
                views(list@) == parts(self@.committed.ranges(), range@),
                views(list@).len() == list@.len(),
                k <= count <= range.follower_node_ids@.len(),
                missing@ == before.union(self@.range_gaps(range@, k as nat)),
            decreases count - k,
        {
            let follower = &range.follower_node_ids[k];
            proof {
                assert(f[k as int] == follower@);
            }
            self.add_gaps_into(&list, follower, missing);
            proof {
                assert(missing@ =~= before.union(self@.range_gaps(range@, (k + 1) as nat)));
            }
            k = k + 1;
        }
    }

    /// Lists the streams that a merge needs and that lack copies.
    pub fn missing_merge_streams(&self, change: &TopologyChange) -> (r: Result<
        SortedSet<StreamKey>,
        Status,
    >)
        requires
            change@.target_topology.counts_followers(),
        ensures
            ({
                let target = change@.target_topology;
                match r {
                    Ok(missing) => {
                        &&& self@.committed.range_fault() is None
                        &&& target.range_fault() is None
                        &&& missing@ == self@.merge_gaps(
                            target.ranges(),
                            target.needed_followers(),
                            target.ranges().len(),
                        )
                    },
                    Err(status) => status@ == if self@.committed.range_fault() is Some {
                        self@.committed.range_fault()->0
                    } else {
                        target.range_fault()->0
                    } && (self@.committed.range_fault() is Some || target.range_fault() is Some),
                }
            }),
    {
        let old_ranges = match ranges_of(&self.committed) {
            Ok(ranges) => ranges,
            Err(status) => return Err(status),
        };
        let ranges = match ranges_of(&change.target_topology) {
            Ok(ranges) => ranges,
            Err(status) => return Err(status),
        };
        let needed = required_merge_followers(&change.target_topology);
        let ghost s = range_views(ranges@);
        let mut missing: SortedSet<StreamKey> = SortedSet::new();
        let mut i: usize = 0;
        while i < ranges.len()
            invariant
                s == range_views(ranges@),
                range_views(old_ranges@) == self@.committed.ranges(),
                i <= ranges@.len(),
                missing@ == self@.merge_gaps(s, needed as nat, i as nat),
            decreases ranges.len() - i,
        {
            let range = &ranges[i];
            proof {
                assert(s[i as int] == range@);
                assert(range@.follower_node_ids.len() == range.follower_node_ids@.len());
            }
            let f = range.follower_node_ids.len();
            let count = if f < needed {
                f
            } else {
                needed
            };
            self.add_range_gaps(&old_ranges, range, count, &mut missing);
            i = i + 1;
        }
        Ok(missing)
    }
}

/// The repairs of one stream.
pub open spec fn on_stream(epoch: u64, stream: Stream) -> spec_fn(RepairView) -> bool {
    |r: RepairView| r.epoch == epoch && r.owner_node_id == stream.0 && r.node_id == stream.1
}

/// Picks the repairs of one stream.
pub fn repairs_on_stream(list: &Vec<ReplicaRepair>, epoch: u64, stream: &StreamKey) -> (r: Vec<
    ReplicaRepair,
>)
    ensures
        views(r@) == sifted(views(list@), on_stream(epoch, stream.id())),
{
    let ghost s = views(list@);
    let ghost p = on_stream(epoch, stream.id());
    let mut r: Vec<ReplicaRepair> = Vec::new();
    let mut i: usize = 0;
    proof {
        assert(s.subrange(0, 0) =~= Seq::empty());
        assert(views(r@) =~= Seq::empty());
    }
    while i < list.len()
        invariant
            s == views(list@),
            p == on_stream(epoch, stream.id()),
            i <= list@.len(),
            views(r@) == sifted(s.subrange(0, i as int), p),
        decreases list.len() - i,
    {
        let repair = &list[i];
        proof {
            assert(s[i as int] == repair@);
            lemma_sifted_prefix(s, i as int, p);
        }
        if repair.epoch == epoch && same_text(repair.owner_node_id.as_str(), stream.0.as_str())
            && same_text(repair.node_id.as_str(), stream.1.as_str()) {
            proof {
                lemma_views_push(r@, *repair);
            }
            r.push(repair.clone());
        }
        i = i + 1;
    }
    proof {
        assert(s.subrange(0, s.len() as int) =~= s);
    }
    r
}

/// What is said where a merge lacks copies of a stream that nothing repairs.
pub open spec fn no_repairs(stream: Stream) -> StatusView {
    refusal(
        Code::FailedPrecondition,
        "missing old-topology repair stream from "@ + stream.0 + " to "@ + stream.1,
    )
}

impl ClusterView {
    /// The repairs that complete a stream.
    pub open spec fn stream_repairs(self, stream: Stream) -> Seq<RepairView> {
        sifted(self.replica_repairs, on_stream(self.committed.epoch, stream))
    }
}

impl ClusterState {
    /// Groups the repairs of missing streams, in the order of the streams.
    pub fn merge_repair_groups(&self, missing: &SortedSet<StreamKey>) -> (r: Result<
        Vec<Vec<ReplicaRepair>>,
        Status,
    >)
        ensures
            ({
                let s = missing.items.sequence();
                match r {
                    Ok(groups) => groups@.len() == s.len() && forall|i: int|
                        0 <= i < s.len() ==> views((#[trigger] groups@[i])@)
                            == self@.stream_repairs(s[i].0) && groups@[i]@.len() > 0,
                    Err(status) => exists|i: int|
                        #![trigger s[i]]
                        0 <= i < s.len() && self@.stream_repairs(s[i].0).len() == 0 && status@
                            == no_repairs(s[i].0) && forall|j: int|
                            0 <= j < i ==> self@.stream_repairs((#[trigger] s[j]).0).len() > 0,
                }
            }),
    {
        let ghost s = missing.items.sequence();
        let mut groups: Vec<Vec<ReplicaRepair>> = Vec::new();
        let mut i: usize = 0;
        while i < missing.len()
            invariant
                s == missing.items.sequence(),
                i <= s.len(),
                groups@.len() == i,
                forall|j: int|
                    0 <= j < i ==> views((#[trigger] groups@[j])@) == self@.stream_repairs(s[j].0)
                        && groups@[j]@.len() > 0,
                forall|j: int| 0 <= j < i ==> self@.stream_repairs((#[trigger] s[j]).0).len() > 0,
            decreases s.len() - i,
        {
            let stream = missing.at(i);
            let group = repairs_on_stream(&self.replica_repairs, self.committed.epoch, stream);
            proof {
                assert(views(group@).len() == group@.len());
                assert(stream.id() == s[i as int].0);
            }
            if group.len() == 0 {
                let a = joined(
                    "missing old-topology repair stream from ",
                    stream.0.as_str(),
                );
                let b = joined(a.as_str(), " to ");
                let message = joined(b.as_str(), stream.1.as_str());
                return Err(Status { code: Code::FailedPrecondition, message: message });
            }
            groups.push(group);
            i = i + 1;
        }
        Ok(groups)
    }
}

/// Every stream that one of the first `n` candidates rests on.
pub open spec fn candidate_streams(list: Seq<CandidateView>, n: nat) -> Set<Stream>
    decreases n,
{
    if n == 0 {
        Set::empty()
    } else {
        candidate_streams(list, (n - 1) as nat).union(list[n - 1].pairs)
    }
}

/// The admissions, among those of the first `n` candidates, whose streams have caught up.
pub open spec fn carried(list: Seq<CandidateView>, caught_up: Set<Stream>, n: nat) -> Seq<
    AdmissionView,
>
    decreases n,
{
    if n == 0 {
        Seq::empty()
    } else {
        let rest = carried(list, caught_up, (n - 1) as nat);
        if list[n - 1].pairs.subset_of(caught_up) {
            rest.push(list[n - 1].admission)
        } else {
            rest
        }
    }
}

impl MergeProof {
    /// The streams that need not have caught up, but let an admission be kept if they have.
    pub fn optional_streams(&self) -> (r: SortedSet<StreamKey>)
        ensures
            r@ == candidate_streams(self@.candidates, self@.candidates.len()).difference(
                self@.required,
            ),
    {
        let ghost s = self@.candidates;
        let mut all: SortedSet<StreamKey> = SortedSet::new();
        let mut i: usize = 0;
        while i < self.candidates.len()
            invariant
                s == views(self.candidates@),
                i <= self.candidates@.len(),
                all@ == candidate_streams(s, i as nat),
            decreases self.candidates.len() - i,
        {
            proof {
                assert(s[i as int] == self.candidates@[i as int]@);
            }
            absorb(&mut all, &self.candidates[i].pairs);
            i = i + 1;
        }
        let ghost whole = all@;
        self.required.items.expose();
        let ghost q = self.required.items.sequence();
        let mut i: usize = 0;
        while i < self.required.items.len()
            invariant
                q == self.required.items.sequence(),
                unique_entries(q),
                i <= q.len(),
                forall|k: Stream| #[trigger]
                    all@.contains(k) ==> whole.contains(k),
                forall|k: Stream|
                    #[trigger] whole.contains(k) && !self.required@.contains(k) ==> all@.contains(
                        k,
                    ),
                forall|j: int| 0 <= j < i ==> !all@.contains((#[trigger] q[j]).0),
            decreases q.len() - i,
        {
            proof {
                lemma_entry(q, i as int);
            }
            all.remove(self.required.items.key_at(i));
            i = i + 1;
        }
        proof {
            assert forall|k: Stream| self.required@.contains(k) implies !all@.contains(k) by {
                let j = entry_index(q, k);
                lemma_entry(q, j);
            }
            assert(all@ =~= whole.difference(self.required@));
        }
        all
    }

    /// The admissions whose streams have caught up.
    pub fn carry(&self, caught_up: &SortedSet<StreamKey>) -> (r: Vec<ReplicaAdmission>)
        ensures
            views(r@) == carried(self@.candidates, caught_up@, self@.candidates.len()),
    {
        let ghost s = self@.candidates;
        let mut r: Vec<ReplicaAdmission> = Vec::new();
        let mut i: usize = 0;
        proof {
            assert(views(r@) =~= Seq::empty());
        }
        while i < self.candidates.len()
            invariant
                s == views(self.candidates@),
                i <= self.candidates@.len(),
                views(r@) == carried(s, caught_up@, i as nat),
            decreases self.candidates.len() - i,
        {
            let c = &self.candidates[i];
            proof {
                assert(s[i as int] == c@);
            }
            if c.pairs.within(caught_up) {
                proof {
                    lemma_views_push(r@, c.admission);
                }
                r.push(c.admission.clone());
            }
            i = i + 1;
        }
        r
    }
}

impl ClusterState {
    /// Tells whether a follower has applied all that its owner has sent.
    pub fn merge_pair_caught_up(
        &self,
        stream: &StreamKey,
        head: &ReplicationProgress,
        cursor: &ReplicationProgress,
    ) -> (r: Result<bool, Status>)
        ensures
            ({
                let known = self@.runs(stream.0@, head.process_instance_id@) && self@.runs(
                    stream.1@,
                    cursor.process_instance_id@,
                );
                match r {
                    Ok(caught_up) => known && caught_up == (cursor.stream_sequence
                        >= head.stream_sequence),
                    Err(status) => !known && status@ == refusal(
                        Code::FailedPrecondition,
                        "replication participant changed process"@,
                    ),
                }
            }),
    {
        if !self.node_runs(&stream.0, head.process_instance_id.as_str()) || !self.node_runs(
            &stream.1,
            cursor.process_instance_id.as_str(),
        ) {
            return Err(
                Status::new(Code::FailedPrecondition, "replication participant changed process"),
            );
        }
        Ok(cursor.stream_sequence >= head.stream_sequence)
    }
}

/// Tells whether two maps from names to names are the same.
pub fn same_names(a: &SortedMap<String, String>, b: &SortedMap<String, String>) -> (r: bool)
    ensures
        r == (shown(*a) == shown(*b)),
{
    let r = names_within(a, b) && names_within(b, a);
    proof {
        if r {
            assert(shown(*a) =~= shown(*b));
        }
    }
    r
}

fn names_within(a: &SortedMap<String, String>, b: &SortedMap<String, String>) -> (r: bool)
    ensures
        r == shown(*a).submap_of(shown(*b)),
{
    a.expose();
    let ghost s = a.sequence();
    let mut i: usize = 0;
    while i < a.len()
        invariant
            s == a.sequence(),
            unique_entries(s),
            i <= s.len(),
            forall|j: int|
                0 <= j < i ==> shown(*b).contains_key((#[trigger] s[j]).0) && shown(*b)[s[j].0]
                    == s[j].1@,
        decreases s.len() - i,
    {
        proof {
            lemma_entry(s, i as int);
            assert(shown(*a).contains_key(s[i as int].0));
            assert(shown(*a)[s[i as int].0] == s[i as int].1@);
        }
        let same = match b.get(a.key_at(i)) {
            Some(value) => same_text(value.as_str(), a.value_at(i).as_str()),
            None => false,
        };
        if !same {
            proof {
                let k = s[i as int].0;
                assert(shown(*a).dom().contains(k));
                if shown(*b).dom().contains(k) {
                    assert(b@.contains_key(k));
                    assert(shown(*b)[k] == b@[k]@);
                    assert(shown(*b)[k] != shown(*a)[k]);
                }
                assert(!shown(*a).submap_of(shown(*b)));
            }
            return false;
        }
        i = i + 1;
    }
    proof {
        assert forall|k: Seq<char>| #[trigger] shown(*a).dom().contains(k) implies shown(
            *b,
        ).dom().contains(k) && shown(*a)[k] == shown(*b)[k] by {
            let j = entry_index(s, k);
            lemma_entry(s, j);
        }
    }
    true
}

/// Tells whether two lists of admissions are the same.
pub fn same_admissions(a: &Vec<ReplicaAdmission>, b: &Vec<ReplicaAdmission>) -> (r: bool)
    ensures
        r == (views(a@) == views(b@)),
{
    let ghost s = views(a@);
    let ghost t = views(b@);
    if a.len() != b.len() {
        proof {
            assert(s.len() != t.len());
        }
        return false;
    }
    let mut i: usize = 0;
    while i < a.len()
        invariant
            s == views(a@),
            t == views(b@),
            a@.len() == b@.len(),
            i <= a@.len(),
            forall|j: int| 0 <= j < i ==> s[j] == t[j],
        decreases a.len() - i,
    {
        let x = &a[i];
        let y = &b[i];
        proof {
            assert(s[i as int] == x@);
            assert(t[i as int] == y@);
        }
        if x.epoch != y.epoch || x.start_exclusive != y.start_exclusive || x.end_inclusive
            != y.end_inclusive || x.verified_watermark != y.verified_watermark || x.stream_cursor
            != y.stream_cursor || !same_text(x.owner_node_id.as_str(), y.owner_node_id.as_str())
            || !same_text(x.node_id.as_str(), y.node_id.as_str()) || !same_text(
            x.process_instance_id.as_str(),
            y.process_instance_id.as_str(),
        ) || !same_text(x.digest.as_str(), y.digest.as_str()) {
            return false;
        }
        proof {
            assert(s[i as int] =~= t[i as int]);
        }
        i = i + 1;
    }
    proof {
        assert(s =~= t);
    }
    true
}

impl ClusterView {
    /// Nothing that a merge rests on has changed since a state was looked at.
    pub open spec fn merge_stands(self, then: ClusterView, identity: IdentityView) -> bool {
        &&& self.committed == then.committed
        &&& self.process_instances == then.process_instances
        &&& self.replica_admissions == then.replica_admissions
        &&& self.fenced_nodes == then.fenced_nodes
        &&& self.runs_change(identity)
    }
}

impl ClusterState {
    /// Checks that nothing that a merge rests on has changed since a state was looked at.
    pub fn check_merge_stands(&self, then: &ClusterState, change: &TopologyChange) -> (r: Result<
        (),
        Status,
    >)
        ensures
            r is Ok == self@.merge_stands(then@, change@.identity()),
            r matches Err(status) ==> status@ == refusal(
                Code::FailedPrecondition,
                "merge coverage changed before publication"@,
            ),
    {
        if self.committed.same(&then.committed) && same_names(
            &self.process_instances,
            &then.process_instances,
        ) && same_admissions(&self.replica_admissions, &then.replica_admissions)
            && self.fenced_nodes.same(&then.fenced_nodes) && self.runs_change(
            &change_identity(change),
        ) {
            Ok(())
        } else {
            Err(
                Status::new(
                    Code::FailedPrecondition,
                    "merge coverage changed before publication",
                ),
            )
        }
    }
}

proof fn lemma_no_gap(s: ClusterView, list: Seq<RangeView>, owner: Seq<char>, i: nat, k: int)
    requires
        s.gap_from(list, owner, i) is None,
        i <= k < list.len(),
    ensures
        s.inherits(list[k], owner),
    decreases list.len() - i,
{
    if i < k {
        lemma_no_gap(s, list, owner, i + 1, k);
    }
}

proof fn lemma_covered(s: ClusterView, ranges: Seq<RangeView>, i: nat, k: int)
    requires
        s.coverage_fault(ranges, i) is None,
        i <= k < ranges.len(),
    ensures
        parts(s.committed.ranges(), ranges[k]).len() > 0,
        s.gap_from(parts(s.committed.ranges(), ranges[k]), ranges[k].owner_node_id, 0) is None,
    decreases ranges.len() - i,
{
    if i < k {
        lemma_covered(s, ranges, i + 1, k);
    }
}

/// Where a merge is allowed, the owner of every merged range holds each part of it already: as
/// its owner, or as the first follower with a verified copy.
pub proof fn law_merged_owners_hold_every_part(
    s: ClusterView,
    target: SnapshotView,
    k: int,
    p: int,
)
    requires
        s.merge_fault(target) is None,
        0 <= k < target.ranges().len(),
        0 <= p < parts(s.committed.ranges(), target.ranges()[k]).len(),
    ensures
        s.inherits(
            parts(s.committed.ranges(), target.ranges()[k])[p],
            target.ranges()[k].owner_node_id,
        ),
{
    lemma_covered(s, target.ranges(), 0, k);
    lemma_no_gap(
        s,
        parts(s.committed.ranges(), target.ranges()[k]),
        target.ranges()[k].owner_node_id,
        0,
        p,
    );
}

/// An admission is carried over a merge only if every stream that it rests on has caught up.
pub proof fn law_carried_admissions_have_caught_up(
    list: Seq<CandidateView>,
    caught_up: Set<Stream>,
    n: nat,
    i: int,
)
    requires
        n <= list.len(),
        0 <= i < carried(list, caught_up, n).len(),
    ensures
        exists|c: int|
            #![trigger list[c]]
            0 <= c < n && list[c].admission == carried(list, caught_up, n)[i]
                && list[c].pairs.subset_of(caught_up),
    decreases n,
{
    let rest = carried(list, caught_up, (n - 1) as nat);
    if i < rest.len() {
        law_carried_admissions_have_caught_up(list, caught_up, (n - 1) as nat, i);
        let c = choose|c: int|
            #![trigger list[c]]
            0 <= c < n - 1 && list[c].admission == rest[i] && list[c].pairs.subset_of(caught_up);
        assert(list[c].admission == carried(list, caught_up, n)[i]);
    } else {
        assert(list[n - 1].admission == carried(list, caught_up, n)[i]);
    }
}

} // verus!
