//! Handing the ranges of leaving nodes to the neighbours that follow them already.
use crate::bytes::{be64, put_be64, put_text};
use crate::cluster::{AdmissionView, ClusterState, ClusterView, ReplicaAdmission};
use crate::coverage::{constituents, parts, ranges_of, required_merge_followers};
use crate::errors::{refusal, refused, Code, Status, StatusView};
use crate::hashing::{blake3_hex, blake3_hex_of};
use crate::migration::TopologyChange;
use crate::ordmap::{entry_index, lemma_entry, unique_entries, MapKey};
use crate::ring::RangeView;
use crate::sets::SortedSet;
use crate::text::{list_has, same_text, texts};
use crate::topology::{
    member_views, range_views, DerivedRange, Member, SnapshotView, TopologySnapshot,
};
use crate::views::{lemma_views_push, opt, views};
use vstd::prelude::*;
use vstd::utf8::encode_utf8;

verus! {

/// An owner and a node that follows it.
pub type Stream = (Seq<char>, Seq<char>);

pub type StreamKey = (String, String);

/// An admission that a merge may carry over, with the streams it rests on.
pub struct CandidateAdmission {
    pub admission: ReplicaAdmission,
    pub pairs: SortedSet<StreamKey>,
}

#[verifier::ext_equal]
pub struct CandidateView {
    pub admission: AdmissionView,
    pub pairs: Set<Stream>,
}

impl View for CandidateAdmission {
    type V = CandidateView;

    open spec fn view(&self) -> CandidateView {
        CandidateView { admission: self.admission@, pairs: self.pairs@ }
    }
}

/// Adds all keys of one set to another.
pub fn absorb<K: MapKey>(into: &mut SortedSet<K>, from: &SortedSet<K>)
    ensures
        final(into)@ == old(into)@.union(from@),
{
    from.items.expose();
    let ghost s = from.items.sequence();
    let ghost before = into@;
    let mut i: usize = 0;
    while i < from.items.len()
        invariant
            s == from.items.sequence(),
            unique_entries(s),
            i <= s.len(),
            forall|j: int| 0 <= j < i ==> into@.contains((#[trigger] s[j]).0),
            forall|k: K::Id| before.contains(k) ==> #[trigger] into@.contains(k),
            forall|k: K::Id| #[trigger]
                into@.contains(k) ==> before.contains(k) || from@.contains(k),
        decreases s.len() - i,
    {
        proof {
            lemma_entry(s, i as int);
        }
        let _ = into.insert(from.items.key_at(i).copy());
        i = i + 1;
    }
    proof {
        assert forall|k: K::Id| from@.contains(k) implies into@.contains(k) by {
            let j = entry_index(s, k);
            lemma_entry(s, j);
        }
        assert(into@ =~= before.union(from@));
    }
}

/// The streams on which a node follows the first `n` of these ranges.
pub open spec fn streams_into(list: Seq<RangeView>, node: Seq<char>, n: nat) -> Set<Stream>
    decreases n,
{
    if n == 0 {
        Set::empty()
    } else {
        let rest = streams_into(list, node, (n - 1) as nat);
        if list[n - 1].owner_node_id == node {
            rest
        } else {
            rest.insert((list[n - 1].owner_node_id, node))
        }
    }
}

/// A node owns a range, or follows it.
pub open spec fn holds_part(part: RangeView, node: Seq<char>) -> bool {
    part.owner_node_id == node || part.follower_node_ids.contains(node)
}

/// The owner of a merged range and the followers it needs are the natural heirs of a part.
pub open spec fn heirs_of(part: RangeView, range: RangeView, needed: nat) -> bool {
    &&& part.owner_node_id == range.owner_node_id || (part.follower_node_ids.len() > 0
        && part.follower_node_ids[0] == range.owner_node_id)
    &&& forall|k: int|
        0 <= k < needed ==> holds_part(part, #[trigger] range.follower_node_ids[k])
}

/// A merged range falls to its natural heirs.
pub open spec fn merges(old_ranges: Seq<RangeView>, range: RangeView, needed: nat) -> bool {
    let list = parts(old_ranges, range);
    &&& list.len() > 0
    &&& range.follower_node_ids.len() >= needed
    &&& forall|i: int| 0 <= i < list.len() ==> heirs_of(#[trigger] list[i], range, needed)
}

/// A topology only loses members, and their ranges fall to their natural heirs.
pub open spec fn naturally_merges(before: SnapshotView, after: SnapshotView) -> bool {
    &&& after.members.len() < before.members.len()
    &&& after.config() == before.config()
    &&& forall|i: int|
        0 <= i < after.members.len() ==> before.members.contains(#[trigger] after.members[i])
    &&& before.range_fault() is None
    &&& after.range_fault() is None
    &&& forall|i: int|
        0 <= i < after.ranges().len() ==> merges(
            before.ranges(),
            #[trigger] after.ranges()[i],
            after.needed_followers(),
        )
}

/// Looks for a member, address included.
pub fn has_member(list: &Vec<Member>, member: &Member) -> (r: bool)
    ensures
        r == member_views(list@).contains(member@),
{
    let ghost s = member_views(list@);
    let mut i: usize = 0;
    while i < list.len()
        invariant
            s == member_views(list@),
            i <= list@.len(),
            forall|j: int| 0 <= j < i ==> s[j] != member@,
        decreases list.len() - i,
    {
        proof {
            assert(s[i as int] == list@[i as int]@);
        }
        if same_text(list[i].node_id.as_str(), member.node_id.as_str()) && same_text(
            list[i].endpoint.as_str(),
            member.endpoint.as_str(),
        ) {
            proof {
                assert(s[i as int] =~= member@);
            }
            return true;
        }
        i = i + 1;
    }
    false
}

fn part_has_heirs(part: &DerivedRange, range: &DerivedRange, needed: usize) -> (r: bool)
    requires
        needed <= range.follower_node_ids@.len(),
    ensures
        r == heirs_of(part@, range@, needed as nat),
{
    let ghost f = range@.follower_node_ids;
    let owned = same_text(part.owner_node_id.as_str(), range.owner_node_id.as_str());
    let first = part.follower_node_ids.len() > 0 && same_text(
        part.follower_node_ids[0].as_str(),
        range.owner_node_id.as_str(),
    );
    proof {
        if part.follower_node_ids@.len() > 0 {
            assert(part@.follower_node_ids[0] == part.follower_node_ids@[0]@);
        }
    }
    if !owned && !first {
        return false;
    }
    let mut k: usize = 0;
    while k < needed
        invariant
            f == range@.follower_node_ids,
            f == texts(range.follower_node_ids@),
            needed <= range.follower_node_ids@.len(),
            k <= needed,
            forall|j: int| 0 <= j < k ==> holds_part(part@, #[trigger] f[j]),
        decreases needed - k,
    {
        let follower = &range.follower_node_ids[k];
        proof {
            assert(f[k as int] == follower@);
        }
        if !same_text(part.owner_node_id.as_str(), follower.as_str()) && !list_has(
            &part.follower_node_ids,
            follower.as_str(),
        ) {
            proof {
                assert(!holds_part(part@, f[k as int]));
            }
            return false;
        }
        k = k + 1;
    }
    true
}

fn range_merges(old_ranges: &Vec<DerivedRange>, range: &DerivedRange, needed: usize) -> (r: bool)
    ensures
        r == merges(range_views(old_ranges@), range@, needed as nat),
{
    let list = constituents(old_ranges, range);
    let ghost s = views(list@);
    if list.len() == 0 || range.follower_node_ids.len() < needed {
        proof {
            assert(s.len() == list@.len());
        }
        return false;
    }
    let mut i: usize = 0;
    while i < list.len()
        invariant
            s == views(list@),
            s == parts(range_views(old_ranges@), range@),
            needed <= range.follower_node_ids@.len(),
            i <= list@.len(),
            forall|j: int| 0 <= j < i ==> heirs_of(#[trigger] s[j], range@, needed as nat),
        decreases list.len() - i,
    {
        proof {
            assert(s[i as int] == list@[i as int]@);
        }
        if !part_has_heirs(list[i], range, needed) {
            proof {
                assert(!heirs_of(s[i as int], range@, needed as nat));
            }
            return false;
        }
        i = i + 1;
    }
    true
}

/// Tells whether a topology only loses members whose ranges fall to their natural heirs.
pub fn can_prepare_direct_merge(old_topology: &TopologySnapshot, change: &TopologyChange) -> (r:
    bool)
    requires
        change@.target_topology.counts_followers(),
    ensures
        r == naturally_merges(old_topology@, change@.target_topology),
{
    let target = &change.target_topology;
    if target.members.len() >= old_topology.members.len() || target.config()
        != old_topology.config() {
        return false;
    }
    let ghost m = target@.members;
    let mut i: usize = 0;
    while i < target.members.len()
        invariant
            m == member_views(target.members@),
            m == change@.target_topology.members,
            i <= target.members@.len(),
            forall|j: int| 0 <= j < i ==> old_topology@.members.contains(#[trigger] m[j]),
        decreases target.members.len() - i,
    {
        proof {
            assert(m[i as int] == target.members@[i as int]@);
        }
        if !has_member(&old_topology.members, &target.members[i]) {
            proof {
                assert(!old_topology@.members.contains(m[i as int]));
            }
            return false;
        }
        i = i + 1;
    }
    let old_ranges = match ranges_of(old_topology) {
        Ok(ranges) => ranges,
        Err(_) => return false,
    };
    let ranges = match ranges_of(target) {
        Ok(ranges) => ranges,
        Err(_) => return false,
    };
    let needed = required_merge_followers(target);
    let ghost s = target@.ranges();
    let mut i: usize = 0;
    while i < ranges.len()
        invariant
            s == range_views(ranges@),
            s == change@.target_topology.ranges(),
            needed == change@.target_topology.needed_followers(),
            i <= ranges@.len(),
            range_views(old_ranges@) == old_topology@.ranges(),
            forall|j: int|
                0 <= j < i ==> merges(old_topology@.ranges(), #[trigger] s[j], needed as nat),
        decreases ranges.len() - i,
    {
        proof {
            assert(s[i as int] == ranges@[i as int]@);
        }
        if !range_merges(&old_ranges, &ranges[i], needed) {
            proof {
                assert(!merges(old_topology@.ranges(), s[i as int], needed as nat));
            }
            return false;
        }
        i = i + 1;
    }
    true
}

impl ClusterView {
    /// A node owns the first `n` of these ranges or holds verified copies of them.
    pub open spec fn holds_all(self, list: Seq<RangeView>, node: Seq<char>, n: nat) -> bool {
        forall|i: int|
            0 <= i < n ==> (#[trigger] list[i]).owner_node_id == node || self.covers(list[i], node)
    }

    /// What stands for the copies that a node holds of the first `n` of these ranges.
    pub open spec fn copy_bytes(self, list: Seq<RangeView>, node: Seq<char>, n: nat) -> Seq<u8>
        decreases n,
    {
        if n == 0 {
            encode_utf8("hashring-rs:merged-admission:v1\0"@)
        } else {
            let part = list[n - 1];
            self.copy_bytes(list, node, (n - 1) as nat) + be64(part.start_exclusive) + be64(
                part.end_inclusive,
            ) + if part.owner_node_id == node {
                encode_utf8("owner"@)
            } else {
                encode_utf8(self.proof_from(part, node, 0)->0.digest)
            }
        }
    }

    /// The admission that a follower of a merged range keeps, if it holds every part of it.
    pub open spec fn candidate(self, epoch: u64, range: RangeView, node: Seq<char>) -> Option<
        CandidateView,
    > {
        let list = parts(self.committed.ranges(), range);
        if !self.process_instances.contains_key(node) || self.fenced_nodes.contains(node)
            || !self.holds_all(list, node, list.len()) {
            None
        } else {
            Some(
                CandidateView {
                    admission: AdmissionView {
                        epoch: epoch,
                        start_exclusive: range.start_exclusive,
                        end_inclusive: range.end_inclusive,
                        owner_node_id: range.owner_node_id,
                        node_id: node,
                        process_instance_id: self.process_instances[node],
                        verified_watermark: 0,
                        stream_cursor: 0,
                        digest: blake3_hex(self.copy_bytes(list, node, list.len())),
                    },
                    pairs: streams_into(list, node, list.len()),
                },
            )
        }
    }

    /// The admissions that the first `n` followers of a merged range keep.
    pub open spec fn range_candidates(self, epoch: u64, range: RangeView, n: nat) -> Seq<
        CandidateView,
    >
        decreases n,
    {
        if n == 0 {
            Seq::empty()
        } else {
            let rest = self.range_candidates(epoch, range, (n - 1) as nat);
            match self.candidate(epoch, range, range.follower_node_ids[n - 1]) {
                Some(c) => rest.push(c),
                None => rest,
            }
        }
    }

    /// The admissions that the followers of the first `n` merged ranges keep.
    pub open spec fn candidates(self, epoch: u64, ranges: Seq<RangeView>, n: nat) -> Seq<
        CandidateView,
    >
        decreases n,
    {
        if n == 0 {
            Seq::empty()
        } else {
            self.candidates(epoch, ranges, (n - 1) as nat) + self.range_candidates(
                epoch,
                ranges[n - 1],
                ranges[n - 1].follower_node_ids.len(),
            )
        }
    }

    /// The streams on which the owners of the first `n` merged ranges follow what they take
    /// over.
    pub open spec fn owner_streams(self, ranges: Seq<RangeView>, n: nat) -> Set<Stream>
        decreases n,
    {
        if n == 0 {
            Set::empty()
        } else {
            let list = parts(self.committed.ranges(), ranges[n - 1]);
            self.owner_streams(ranges, (n - 1) as nat).union(
                streams_into(list, ranges[n - 1].owner_node_id, list.len()),
            )
        }
    }
}

/// The admission of a follower of a range among these candidates, from `i` on.
pub open spec fn candidate_from(
    list: Seq<CandidateView>,
    range: RangeView,
    node: Seq<char>,
    i: nat,
) -> Option<CandidateView>
    decreases list.len() - i,
{
    if i >= list.len() {
        None
    } else if list[i as int].admission.start_exclusive == range.start_exclusive
        && list[i as int].admission.end_inclusive == range.end_inclusive
        && list[i as int].admission.node_id == node {
        Some(list[i as int])
    } else {
        candidate_from(list, range, node, i + 1)
    }
}

/// One of the followers that a merged range needs, from `k` on, keeps no admission.
pub open spec fn lacks_follower(
    list: Seq<CandidateView>,
    range: RangeView,
    needed: nat,
    k: nat,
) -> bool
    decreases needed - k,
{
    k < needed && (candidate_from(list, range, range.follower_node_ids[k as int], 0) is None
        || lacks_follower(list, range, needed, k + 1))
}

/// Why the write guard would not hold on the merged ranges from `i` on, if it would not.
pub open spec fn guard_fault(
    list: Seq<CandidateView>,
    ranges: Seq<RangeView>,
    needed: nat,
    i: nat,
) -> Option<StatusView>
    decreases ranges.len() - i,
{
    if i >= ranges.len() {
        None
    } else if ranges[i as int].follower_node_ids.len() < needed {
        Some(refusal(Code::FailedPrecondition, "merged range cannot satisfy its write guard"@))
    } else if lacks_follower(list, ranges[i as int], needed, 0) {
        Some(refusal(Code::FailedPrecondition, "required merged follower lacks admitted coverage"@))
    } else {
        guard_fault(list, ranges, needed, i + 1)
    }
}

/// The streams that the first `n` followers of a merged range rest on.
pub open spec fn follower_streams(list: Seq<CandidateView>, range: RangeView, n: nat) -> Set<Stream>
    decreases n,
{
    if n == 0 {
        Set::empty()
    } else {
        follower_streams(list, range, (n - 1) as nat).union(
            candidate_from(list, range, range.follower_node_ids[n - 1], 0)->0.pairs,
        )
    }
}

/// The streams that the followers which the first `n` merged ranges need rest on.
pub open spec fn guard_streams(
    list: Seq<CandidateView>,
    ranges: Seq<RangeView>,
    needed: nat,
    n: nat,
) -> Set<Stream>
    decreases n,
{
    if n == 0 {
        Set::empty()
    } else {
        guard_streams(list, ranges, needed, (n - 1) as nat).union(
            follower_streams(list, ranges[n - 1], needed),
        )
    }
}

/// What a merge rests on: the streams that must have caught up, and the admissions that may
/// be kept.
#[verifier::ext_equal]
pub struct MergeView {
    pub required: Set<Stream>,
    pub candidates: Seq<CandidateView>,
}

impl ClusterView {
    /// The admissions that may be kept under a smaller topology.
    pub open spec fn merge_candidates(self, target: SnapshotView) -> Seq<CandidateView> {
        self.candidates(target.epoch, target.ranges(), target.ranges().len())
    }

    /// Why a smaller topology cannot be merged into, if it cannot.
    pub open spec fn merge_fault(self, target: SnapshotView) -> Option<StatusView> {
        if self.removal_fault(target) is Some {
            self.removal_fault(target)
        } else {
            guard_fault(
                self.merge_candidates(target),
                target.ranges(),
                target.needed_followers(),
                0,
            )
        }
    }

    /// What the merge into a smaller topology rests on.
    pub open spec fn merge_basis(self, target: SnapshotView) -> MergeView {
        let list = self.merge_candidates(target);
        MergeView {
            required: self.owner_streams(target.ranges(), target.ranges().len()).union(
                guard_streams(
                    list,
                    target.ranges(),
                    target.needed_followers(),
                    target.ranges().len(),
                ),
            ),
            candidates: list,
        }
    }
}

/// What a merge rests on: the streams that must have caught up, and the admissions that may
/// be kept.
pub struct MergeProof {
    pub required: SortedSet<StreamKey>,
    pub candidates: Vec<CandidateAdmission>,
}

impl View for MergeProof {
    type V = MergeView;

    open spec fn view(&self) -> MergeView {
        MergeView { required: self.required@, candidates: views(self.candidates@) }
    }
}


fn stream_key(owner: &String, node: &String) -> (r: StreamKey)
    ensures
        r.id() == (owner@, node@),
{
    (owner.clone(), node.clone())
}

fn add_streams_into(list: &Vec<&DerivedRange>, node: &String, streams: &mut SortedSet<StreamKey>)
    ensures
        final(streams)@ == old(streams)@.union(streams_into(views(list@), node@, list@.len())),
{
    let ghost s = views(list@);
    let ghost before = streams@;
    let mut i: usize = 0;
    proof {
        assert(streams@ =~= before.union(streams_into(s, node@, 0)));
    }
    while i < list.len()
        invariant
            s == views(list@),
            i <= list@.len(),
            streams@ == before.union(streams_into(s, node@, i as nat)),
        decreases list.len() - i,
    {
        let part = list[i];
        proof {
            assert(s[i as int] == part@);
        }
        if !same_text(part.owner_node_id.as_str(), node.as_str()) {
            let _ = streams.insert(stream_key(&part.owner_node_id, node));
        }
        proof {
            assert(streams@ =~= before.union(streams_into(s, node@, (i + 1) as nat)));
        }
        i = i + 1;
    }
}

impl ClusterState {
    fn candidate_for(
        &self,
        list: &Vec<&DerivedRange>,
        epoch: u64,
        range: &DerivedRange,
        follower: &String,
    ) -> (r: Option<CandidateAdmission>)
        requires
            views(list@) == parts(self@.committed.ranges(), range@),
        ensures
            opt(r) == self@.candidate(epoch, range@, follower@),
    {
        let ghost s = views(list@);
        let ghost v = self@;
        let instance = match self.process_instances.get(follower) {
            Some(instance) => instance.clone(),
            None => return None,
        };
        if self.fenced_nodes.contains(follower) {
            return None;
        }
        let mut bytes: Vec<u8> = Vec::new();
        put_text(&mut bytes, "hashring-rs:merged-admission:v1\0");
        proof {
            assert(bytes@ =~= v.copy_bytes(s, follower@, 0));
        }
        let mut i: usize = 0;
        while i < list.len()
            invariant
                s == views(list@),
                s == parts(v.committed.ranges(), range@),
                v == self@,
                i <= list@.len(),
                v.holds_all(s, follower@, i as nat),
                bytes@ == v.copy_bytes(s, follower@, i as nat),
            decreases list.len() - i,
        {
            let part = list[i];
            proof {
                assert(s[i as int] == part@);
            }
            put_be64(&mut bytes, part.start_exclusive);
            put_be64(&mut bytes, part.end_inclusive);
            if same_text(part.owner_node_id.as_str(), follower.as_str()) {
                put_text(&mut bytes, "owner");
            } else {
                match self.admission_for(part, follower) {
                    Some(admission) => put_text(&mut bytes, admission.digest.as_str()),
                    None => {
                        proof {
                            assert(!v.covers(s[i as int], follower@));
                            assert(!v.holds_all(s, follower@, s.len()));
                        }
                        return None;
                    },
                }
            }
            i = i + 1;
        }
        let mut pairs: SortedSet<StreamKey> = SortedSet::new();
        add_streams_into(list, follower, &mut pairs);
        proof {
            assert(pairs@ =~= streams_into(s, follower@, s.len()));
        }
        let candidate = CandidateAdmission {
            admission: ReplicaAdmission {
                epoch: epoch,
                start_exclusive: range.start_exclusive,
                end_inclusive: range.end_inclusive,
                owner_node_id: range.owner_node_id.clone(),
                node_id: follower.clone(),
                process_instance_id: instance,
                verified_watermark: 0,
                stream_cursor: 0,
                digest: blake3_hex_of(bytes.as_slice()),
            },
            pairs: pairs,
        };
        proof {
            assert(candidate@ =~= v.candidate(epoch, range@, follower@)->0);
        }
        Some(candidate)
    }

    fn add_range_candidates(
        &self,
        list: &Vec<&DerivedRange>,
        epoch: u64,
        range: &DerivedRange,
        candidates: &mut Vec<CandidateAdmission>,
    )
        requires
            views(list@) == parts(self@.committed.ranges(), range@),
        ensures
            views(final(candidates)@) == views(old(candidates)@) + self@.range_candidates(
                epoch,
                range@,
                range.follower_node_ids@.len(),
            ),
    {
        let ghost before = views(candidates@);
        let ghost f = range@.follower_node_ids;
        let mut i: usize = 0;
        proof {
            assert(views(candidates@) =~= before + self@.range_candidates(epoch, range@, 0));
        }
        while i < range.follower_node_ids.len()
            invariant
                f == range@.follower_node_ids,
                f == texts(range.follower_node_ids@),
                views(list@) == parts(self@.committed.ranges(), range@),
                i <= range.follower_node_ids@.len(),
                views(candidates@) == before + self@.range_candidates(epoch, range@, i as nat),
            decreases range.follower_node_ids.len() - i,
        {
            let follower = &range.follower_node_ids[i];
            proof {
                assert(f[i as int] == follower@);
            }
            if let Some(candidate) = self.candidate_for(list, epoch, range, follower) {
                proof {
                    lemma_views_push(candidates@, candidate);
                }
                candidates.push(candidate);
            }
            proof {
                assert(views(candidates@) =~= before + self@.range_candidates(
                    epoch,
                    range@,
                    (i + 1) as nat,
                ));
            }
            i = i + 1;
        }
    }

    fn gather_candidates(
        &self,
        epoch: u64,
        old_ranges: &Vec<DerivedRange>,
        ranges: &Vec<DerivedRange>,
    ) -> (r: MergeProof)
        requires
            range_views(old_ranges@) == self@.committed.ranges(),
        ensures
            views(r.candidates@) == self@.candidates(epoch, range_views(ranges@), ranges@.len()),
            r.required@ == self@.owner_streams(range_views(ranges@), ranges@.len()),
    {
        let ghost s = range_views(ranges@);
        let mut required: SortedSet<StreamKey> = SortedSet::new();
        let mut candidates: Vec<CandidateAdmission> = Vec::new();
        let mut i: usize = 0;
        proof {
            assert(views(candidates@) =~= self@.candidates(epoch, s, 0));
        }
        while i < ranges.len()
            invariant
                s == range_views(ranges@),
                range_views(old_ranges@) == self@.committed.ranges(),
                i <= ranges@.len(),
                views(candidates@) == self@.candidates(epoch, s, i as nat),
                required@ == self@.owner_streams(s, i as nat),
            decreases ranges.len() - i,
        {
            let range = &ranges[i];
            proof {
                assert(s[i as int] == range@);
            }
            let list = constituents(old_ranges, range);
            proof {
                assert(views(list@).len() == list@.len());
            }
            add_streams_into(&list, &range.owner_node_id, &mut required);
            self.add_range_candidates(&list, epoch, range, &mut candidates);
            i = i + 1;
        }
        MergeProof { required: required, candidates: candidates }
    }
}

fn find_candidate<'a>(list: &'a Vec<CandidateAdmission>, range: &DerivedRange, node: &String) -> (r:
    Option<&'a CandidateAdmission>)
    ensures
        match r {
            Some(c) => candidate_from(views(list@), range@, node@, 0) == Some(c@),
            None => candidate_from(views(list@), range@, node@, 0) is None,
        },
{
    let ghost s = views(list@);
    let mut i: usize = 0;
    while i < list.len()
        invariant
            s == views(list@),
            i <= list@.len(),
            candidate_from(s, range@, node@, 0) == candidate_from(s, range@, node@, i as nat),
        decreases list.len() - i,
    {
        let c = &list[i];
        proof {
            assert(s[i as int] == c@);
        }
        if c.admission.start_exclusive == range.start_exclusive && c.admission.end_inclusive
            == range.end_inclusive && same_text(c.admission.node_id.as_str(), node.as_str()) {
            return Some(c);
        }
        i = i + 1;
    }
    None
}

fn add_follower_streams(
    list: &Vec<CandidateAdmission>,
    range: &DerivedRange,
    needed: usize,
    required: &mut SortedSet<StreamKey>,
) -> (r: bool)
    requires
        needed <= range.follower_node_ids@.len(),
    ensures
        r == !lacks_follower(views(list@), range@, needed as nat, 0),
        r ==> final(required)@ == old(required)@.union(
            follower_streams(views(list@), range@, needed as nat),
        ),
{
    let ghost s = views(list@);
    let ghost f = range@.follower_node_ids;
    let ghost before = required@;
    let mut k: usize = 0;
    proof {
        assert(required@ =~= before.union(follower_streams(s, range@, 0)));
    }
    while k < needed
        invariant
            s == views(list@),
            f == range@.follower_node_ids,
            f == texts(range.follower_node_ids@),
            needed <= range.follower_node_ids@.len(),
            k <= needed,
            lacks_follower(s, range@, needed as nat, 0) == lacks_follower(
                s,
                range@,
                needed as nat,
                k as nat,
            ),
            required@ == before.union(follower_streams(s, range@, k as nat)),
        decreases needed - k,
    {
        let follower = &range.follower_node_ids[k];
        proof {
            assert(f[k as int] == follower@);
        }
        match find_candidate(list, range, follower) {
            Some(c) => {
                absorb(required, &c.pairs);
            },
            None => return false,
        }
        proof {
            assert(required@ =~= before.union(follower_streams(s, range@, (k + 1) as nat)));
        }
        k = k + 1;
    }
    true
}

fn add_guard_streams(
    list: &Vec<CandidateAdmission>,
    ranges: &Vec<DerivedRange>,
    needed: usize,
    required: &mut SortedSet<StreamKey>,
) -> (r: Result<(), Status>)
    ensures
        refused(r) == guard_fault(views(list@), range_views(ranges@), needed as nat, 0),
        r is Ok ==> final(required)@ == old(required)@.union(
            guard_streams(views(list@), range_views(ranges@), needed as nat, ranges@.len()),
        ),
{
    let ghost s = views(list@);
    let ghost v = range_views(ranges@);
    let ghost before = required@;
    let mut i: usize = 0;
    proof {
        assert(required@ =~= before.union(guard_streams(s, v, needed as nat, 0)));
    }
    while i < ranges.len()
        invariant
            s == views(list@),
            v == range_views(ranges@),
            i <= ranges@.len(),
            guard_fault(s, v, needed as nat, 0) == guard_fault(s, v, needed as nat, i as nat),
            required@ == before.union(guard_streams(s, v, needed as nat, i as nat)),
        decreases ranges.len() - i,
    {
        let range = &ranges[i];
        proof {
            assert(v[i as int] == range@);
        }
        if range.follower_node_ids.len() < needed {
            return Err(
                Status::new(
                    Code::FailedPrecondition,
                    "merged range cannot satisfy its write guard",
                ),
            );
        }
        if !add_follower_streams(list, range, needed, required) {
            return Err(
                Status::new(
                    Code::FailedPrecondition,
                    "required merged follower lacks admitted coverage",
                ),
            );
        }
        proof {
            assert(required@ =~= before.union(guard_streams(s, v, needed as nat, (i + 1) as nat)));
        }
        i = i + 1;
    }
    Ok(())
}

impl ClusterState {
    /// Proves that the heirs of leaving nodes hold all that they take over, and says which
    /// streams must have caught up for it.
    pub fn merge_proof(&self, change: &TopologyChange) -> (r: Result<MergeProof, Status>)
        requires
            change@.target_topology.counts_followers(),
        ensures
            match r {
                Ok(basis) => self@.merge_fault(change@.target_topology) is None && basis@
                    == self@.merge_basis(change@.target_topology),
                Err(status) => self@.merge_fault(change@.target_topology) == Some(status@),
            },
    {
        let target = &change.target_topology;
        let old_ranges = match ranges_of(&self.committed) {
            Ok(ranges) => ranges,
            Err(status) => return Err(status),
        };
        let ranges = match ranges_of(target) {
            Ok(ranges) => ranges,
            Err(status) => return Err(status),
        };
        if let Err(status) = self.check_owner_coverage(&old_ranges, &ranges) {
            return Err(status);
        }
        let mut basis = self.gather_candidates(target.epoch, &old_ranges, &ranges);
        let needed = required_merge_followers(target);
        match add_guard_streams(&basis.candidates, &ranges, needed, &mut basis.required) {
            Ok(()) => Ok(basis),
            Err(status) => Err(status),
        }
    }

    /// Tells whether the ranges of leaving nodes can pass to their natural heirs as they are.
    pub fn can_direct_merge(&self, change: &TopologyChange) -> (r: bool)
        requires
            change@.target_topology.counts_followers(),
        ensures
            r == (naturally_merges(self@.committed, change@.target_topology) && self@.merge_fault(
                change@.target_topology,
            ) is None),
    {
        can_prepare_direct_merge(&self.committed, change) && self.merge_proof(change).is_ok()
    }
}

} // verus!
