//! Activating a published change and cleaning up after it.
use crate::activation::{needs_replica_barrier, waits_for_copies};
use crate::coverage::{GrantView, Grants};
use crate::errors::{refusal, Code, Status, StatusView};
use crate::leases::{PeerFailure, PeerFailures, Report, NODE_LEASE_DURATION_NANOS};
use crate::migration::{ChangeView, MigrationPhase, MoveView, RangeMigration, TopologyChange};
use crate::ordmap::{kept, lemma_listing, listing, listing_of, shown, SortedMap};
use crate::publish::Contact;
use crate::reconcile::{lemma_sifted_prefix, sifted};
use crate::text::{joined, list_has, same_text};
use crate::topology::{member_views, Member, MemberView, SnapshotView, TopologySnapshot};
use crate::views::{lemma_views_push, views};
use vstd::prelude::*;

verus! {

/// The address of the source of each of the first `n` ranges; of two addresses the later counts.
pub open spec fn source_endpoints(
    ranges: Seq<MoveView>,
    p: spec_fn(MoveView) -> bool,
    n: nat,
) -> Map<Seq<char>, Seq<char>>
    decreases n,
{
    if n == 0 {
        Map::empty()
    } else {
        let rest = source_endpoints(ranges, p, (n - 1) as nat);
        if p(ranges[n - 1]) {
            rest.insert(ranges[n - 1].source_node_id, ranges[n - 1].source_endpoint)
        } else {
            rest
        }
    }
}

/// Members by name and address, in the order of their names.
pub open spec fn as_members(m: Map<Seq<char>, Seq<char>>) -> Seq<MemberView> {
    let list = listing_of::<String, Seq<char>>(m);
    Seq::new(
        list.len(),
        |i: int| MemberView { node_id: list[i].0, endpoint: list[i].1 },
    )
}

fn to_members(m: &SortedMap<String, String>) -> (r: Vec<Member>)
    ensures
        member_views(r@) == as_members(shown(*m)),
{
    m.expose();
    let ghost l = listing(*m);
    proof {
        lemma_listing(*m);
    }
    let mut r: Vec<Member> = Vec::new();
    let mut i: usize = 0;
    while i < m.len()
        invariant
            l == listing(*m),
            l.len() == m.sequence().len(),
            i <= l.len(),
            r@.len() == i,
            forall|j: int|
                0 <= j < i ==> (#[trigger] r@[j])@ == (MemberView {
                    node_id: l[j].0,
                    endpoint: l[j].1,
                }),
        decreases l.len() - i,
    {
        let member = Member { node_id: m.key_at(i).clone(), endpoint: m.value_at(i).clone() };
        proof {
            assert(l[i as int] == (member.node_id@, member.endpoint@));
        }
        r.push(member);
        i = i + 1;
    }
    proof {
        assert(member_views(r@) =~= as_members(shown(*m)));
    }
    r
}

/// Every range.
pub open spec fn any_range() -> spec_fn(MoveView) -> bool {
    |r: MoveView| true
}

impl ChangeView {
    /// A node is being stopped, or has stopped.
    pub open spec fn is_stopping(self, node: Seq<char>) -> bool {
        self.stopping_node_ids.contains(node) || self.stop_prepared_node_ids.contains(node)
            || self.stopped_node_ids.contains(node)
    }

    /// A range comes from a node that leaves and is not being stopped yet.
    pub open spec fn leaves(self) -> spec_fn(MoveView) -> bool {
        |r: MoveView|
            !self.target_topology.is_member(r.source_node_id) && !self.is_stopping(r.source_node_id)
    }

    /// A range goes to a node.
    pub open spec fn goes_to(self, node: Seq<char>) -> bool {
        exists|i: int|
            0 <= i < self.ranges.len() && (#[trigger] self.ranges[i]).destination_node_id == node
    }

    /// A range whose source is still to be cleaned up.
    pub open spec fn uncleaned(self) -> spec_fn(MoveView) -> bool {
        |r: MoveView| !r.source_cleaned && !self.is_stopping(r.source_node_id)
    }
}

/// Tells whether a node is being stopped, or has stopped.
fn is_stopping(change: &TopologyChange, node: &String) -> (r: bool)
    ensures
        r == change@.is_stopping(node@),
{
    list_has(&change.stopping_node_ids, node.as_str()) || list_has(
        &change.stop_prepared_node_ids,
        node.as_str(),
    ) || list_has(&change.stopped_node_ids, node.as_str())
}

/// The nodes that ranges come from.
pub fn old_sources(change: &TopologyChange) -> (r: Vec<Member>)
    ensures
        member_views(r@) == as_members(
            source_endpoints(change@.ranges, any_range(), change@.ranges.len()),
        ),
{
    let ghost s = change@.ranges;
    let ghost p = any_range();
    let mut m: SortedMap<String, String> = SortedMap::new();
    let mut i: usize = 0;
    proof {
        assert(shown(m) =~= source_endpoints(s, p, 0));
    }
    while i < change.ranges.len()
        invariant
            s == views(change.ranges@),
            p == any_range(),
            i <= change.ranges@.len(),
            shown(m) == source_endpoints(s, p, i as nat),
        decreases change.ranges.len() - i,
    {
        let range = &change.ranges[i];
        let ghost before = shown(m);
        proof {
            assert(s[i as int] == range@);
        }
        let _ = m.insert(range.source_node_id.clone(), range.source_endpoint.clone());
        proof {
            assert(shown(m) =~= before.insert(range.source_node_id@, range.source_endpoint@));
        }
        i = i + 1;
    }
    to_members(&m)
}

/// The nodes that leave with a change and are not being stopped yet.
pub fn removed_members(change: &TopologyChange) -> (r: Vec<Member>)
    ensures
        member_views(r@) == as_members(
            source_endpoints(change@.ranges, change@.leaves(), change@.ranges.len()),
        ),
{
    let ghost s = change@.ranges;
    let ghost p = change@.leaves();
    let mut m: SortedMap<String, String> = SortedMap::new();
    let mut i: usize = 0;
    proof {
        assert(shown(m) =~= source_endpoints(s, p, 0));
    }
    while i < change.ranges.len()
        invariant
            s == views(change.ranges@),
            p == change@.leaves(),
            i <= change.ranges@.len(),
            shown(m) == source_endpoints(s, p, i as nat),
        decreases change.ranges.len() - i,
    {
        let range = &change.ranges[i];
        let ghost before = shown(m);
        proof {
            assert(s[i as int] == range@);
        }
        if change.target_topology.member(range.source_node_id.as_str()).is_none() && !is_stopping(
            change,
            &range.source_node_id,
        ) {
            let _ = m.insert(range.source_node_id.clone(), range.source_endpoint.clone());
            proof {
                assert(shown(m) =~= before.insert(range.source_node_id@, range.source_endpoint@));
            }
        }
        i = i + 1;
    }
    to_members(&m)
}

fn goes_to(change: &TopologyChange, node: &String) -> (r: bool)
    ensures
        r == change@.goes_to(node@),
{
    let ghost s = change@.ranges;
    let mut i: usize = 0;
    while i < change.ranges.len()
        invariant
            s == change@.ranges,
            s == views(change.ranges@),
            i <= change.ranges@.len(),
            forall|j: int| 0 <= j < i ==> (#[trigger] s[j]).destination_node_id != node@,
        decreases change.ranges.len() - i,
    {
        proof {
            assert(s[i as int] == change.ranges@[i as int]@);
        }
        if same_text(change.ranges[i].destination_node_id.as_str(), node.as_str()) {
            return true;
        }
        i = i + 1;
    }
    false
}

/// Members that ranges go to.
pub open spec fn receiving(change: ChangeView) -> spec_fn(Member) -> bool {
    |m: Member| change.goes_to(m.node_id@)
}

/// Members that no range goes to.
pub open spec fn not_receiving(change: ChangeView) -> spec_fn(Member) -> bool {
    |m: Member| !change.goes_to(m.node_id@)
}

/// Splits the members of a target into those that ranges go to and the others.
pub fn split_targets(change: &TopologyChange) -> (r: (Vec<Member>, Vec<Member>))
    ensures
        r.0@ == sifted(change.target_topology.members@, receiving(change@)),
        r.1@ == sifted(change.target_topology.members@, not_receiving(change@)),
{
    let ghost s = change.target_topology.members@;
    let ghost p = receiving(change@);
    let ghost q = not_receiving(change@);
    let mut a: Vec<Member> = Vec::new();
    let mut b: Vec<Member> = Vec::new();
    let mut i: usize = 0;
    proof {
        assert(s.subrange(0, 0) =~= Seq::empty());
        assert(a@ =~= Seq::empty());
        assert(b@ =~= Seq::empty());
    }
    while i < change.target_topology.members.len()
        invariant
            s == change.target_topology.members@,
            p == receiving(change@),
            q == not_receiving(change@),
            i <= s.len(),
            a@ == sifted(s.subrange(0, i as int), p),
            b@ == sifted(s.subrange(0, i as int), q),
        decreases s.len() - i,
    {
        let member = &change.target_topology.members[i];
        proof {
            lemma_sifted_prefix(s, i as int, p);
            lemma_sifted_prefix(s, i as int, q);
        }
        if goes_to(change, &member.node_id) {
            a.push(member.clone());
        } else {
            b.push(member.clone());
        }
        i = i + 1;
    }
    proof {
        assert(s.subrange(0, s.len() as int) =~= s);
    }
    (a, b)
}

/// The ranges whose sources are still to be cleaned up.
pub fn ranges_to_clean(change: &TopologyChange) -> (r: Vec<RangeMigration>)
    ensures
        views(r@) == sifted(change@.ranges, change@.uncleaned()),
{
    let ghost s = change@.ranges;
    let ghost p = change@.uncleaned();
    let mut r: Vec<RangeMigration> = Vec::new();
    let mut i: usize = 0;
    proof {
        assert(s.subrange(0, 0) =~= Seq::empty());
        assert(views(r@) =~= Seq::empty());
    }
    while i < change.ranges.len()
        invariant
            s == views(change.ranges@),
            p == change@.uncleaned(),
            i <= change.ranges@.len(),
            views(r@) == sifted(s.subrange(0, i as int), p),
        decreases change.ranges.len() - i,
    {
        let range = &change.ranges[i];
        proof {
            assert(s[i as int] == range@);
            lemma_sifted_prefix(s, i as int, p);
        }
        if !range.source_cleaned && !is_stopping(change, &range.source_node_id) {
            proof {
                lemma_views_push(r@, *range);
            }
            r.push(range.clone());
        }
        i = i + 1;
    }
    proof {
        assert(s.subrange(0, s.len() as int) =~= s);
    }
    r
}

impl ChangeView {
    /// The nodes that leave, with their addresses and processes, after the first `n` ranges.
    pub open spec fn leaving(self, n: nat) -> Map<Seq<char>, Contact>
        decreases n,
    {
        if n == 0 {
            Map::empty()
        } else {
            let rest = self.leaving((n - 1) as nat);
            let r = self.ranges[n - 1];
            if self.target_topology.is_member(r.source_node_id) {
                rest
            } else {
                rest.insert(
                    r.source_node_id,
                    (r.source_endpoint, r.source_process_instance_id),
                )
            }
        }
    }

    /// Why it cannot be told from range `i` on which processes leave, if it cannot.
    pub open spec fn leaving_gap(self, i: nat) -> Option<StatusView>
        decreases self.ranges.len() - i,
    {
        if i >= self.ranges.len() {
            None
        } else {
            let r = self.ranges[i as int];
            let known = self.leaving(i);
            if self.target_topology.is_member(r.source_node_id) {
                self.leaving_gap(i + 1)
            } else if r.source_process_instance_id.len() == 0 {
                Some(
                    refusal(
                        Code::DataLoss,
                        "missing process instance for removed node "@ + r.source_node_id,
                    ),
                )
            } else if known.contains_key(r.source_node_id) && known[r.source_node_id] != (
                r.source_endpoint,
                r.source_process_instance_id,
            ) {
                Some(
                    refusal(
                        Code::DataLoss,
                        "removed node "@ + r.source_node_id
                            + " changed process instance during migration"@,
                    ),
                )
            } else {
                self.leaving_gap(i + 1)
            }
        }
    }
}

/// Tells which processes leave with a change.
pub fn removed_sources(change: &TopologyChange) -> (r: Result<
    SortedMap<String, (String, String)>,
    Status,
>)
    ensures
        match r {
            Ok(found) => change@.leaving_gap(0) is None && shown(found) == change@.leaving(
                change@.ranges.len(),
            ),
            Err(status) => change@.leaving_gap(0) == Some(status@),
        },
{
    let ghost c = change@;
    let ghost s = change@.ranges;
    let mut found: SortedMap<String, (String, String)> = SortedMap::new();
    let mut i: usize = 0;
    proof {
        assert(shown(found) =~= c.leaving(0));
    }
    while i < change.ranges.len()
        invariant
            c == change@,
            s == c.ranges,
            s == views(change.ranges@),
            i <= change.ranges@.len(),
            c.leaving_gap(0) == c.leaving_gap(i as nat),
            shown(found) == c.leaving(i as nat),
        decreases change.ranges.len() - i,
    {
        let range = &change.ranges[i];
        proof {
            assert(s[i as int] == range@);
        }
        if change.target_topology.member(range.source_node_id.as_str()).is_none() {
            if range.source_process_instance_id.as_str().is_empty() {
                let message = joined(
                    "missing process instance for removed node ",
                    range.source_node_id.as_str(),
                );
                return Err(Status { code: Code::DataLoss, message: message });
            }
            if let Some(known) = found.get(&range.source_node_id) {
                if !same_text(known.0.as_str(), range.source_endpoint.as_str()) || !same_text(
                    known.1.as_str(),
                    range.source_process_instance_id.as_str(),
                ) {
                    let before = joined("removed node ", range.source_node_id.as_str());
                    let message = joined(
                        before.as_str(),
                        " changed process instance during migration",
                    );
                    return Err(Status { code: Code::DataLoss, message: message });
                }
            }
            let ghost before = shown(found);
            let _ = found.insert(
                range.source_node_id.clone(),
                (range.source_endpoint.clone(), range.source_process_instance_id.clone()),
            );
            proof {
                assert(shown(found) =~= before.insert(
                    range.source_node_id@,
                    (range.source_endpoint@, range.source_process_instance_id@),
                ));
            }
        }
        i = i + 1;
    }
    Ok(found)
}

/// What is done once a change is published.
#[derive(Clone, Copy, Debug, Eq, PartialEq, Structural)]
pub enum FinishStep {
    /// Install the target at the nodes that ranges come from, without a lease.
    InstallSources,
    /// Install the target at the members that ranges go to.
    InstallDestinations { require_lease: bool },
    /// Install the target at the other members.
    InstallOthers { require_lease: bool },
    /// Install the target at the nodes that leave.
    InstallRemoved,
    /// Let destinations serve their ranges.
    ActivateRanges,
    /// Complete the copies that the target needs.
    SeedCopies,
    /// Note that every member may take leases.
    NoteActivated,
    /// Install the target at all members.
    InstallAll { require_lease: bool },
    /// Let members write again.
    ReleaseFence,
    /// Note that the change has come to a phase.
    Note(MigrationPhase),
    /// Let sources drop the ranges that have moved.
    CleanSources,
    /// Stop the nodes that leave.
    StopRemoved,
    /// Wait until every lease from before has run out.
    AwaitLeases,
    /// Let the sources of the change that was taken back serve their ranges again.
    ReleaseSources,
}

/// The steps that activate a published change: old sources hear of it first, and nobody takes
/// a lease before the copies that it needs are complete.
pub open spec fn finish_plan(change: ChangeView) -> Seq<FinishStep> {
    let pending = !change.activation_ready;
    let moves = change.ranges.len() > 0 || change.replica_obligations.len() > 0;
    let first = if pending {
        seq![FinishStep::InstallSources]
    } else {
        Seq::empty()
    };
    let install = seq![
        FinishStep::InstallDestinations { require_lease: !pending },
        FinishStep::InstallOthers { require_lease: !pending },
        FinishStep::InstallRemoved,
        FinishStep::ActivateRanges,
    ];
    let seed = if pending && waits_for_copies(change.target_topology) && moves {
        seq![FinishStep::SeedCopies]
    } else {
        Seq::empty()
    };
    let activate = if pending {
        seq![FinishStep::NoteActivated, FinishStep::InstallAll { require_lease: true }]
    } else {
        Seq::empty()
    };
    let release = if !moves {
        seq![FinishStep::ReleaseFence]
    } else {
        Seq::empty()
    };
    first + install + seed + activate + release + seq![
        FinishStep::Note(MigrationPhase::CleaningUp),
        FinishStep::CleanSources,
        FinishStep::StopRemoved,
        FinishStep::Note(MigrationPhase::Complete),
    ]
}

/// The steps that activate a published change.
pub fn finish_published_change(change: &TopologyChange) -> (r: Vec<FinishStep>)
    ensures
        r@ == finish_plan(change@),
{
    proof {
        assert(change@.ranges.len() == change.ranges@.len());
        assert(change@.replica_obligations.len() == change.replica_obligations@.len());
    }
    let pending = !change.activation_ready;
    let moves = change.ranges.len() > 0 || change.replica_obligations.len() > 0;
    let mut r: Vec<FinishStep> = Vec::new();
    if pending {
        r.push(FinishStep::InstallSources);
    }
    r.push(FinishStep::InstallDestinations { require_lease: !pending });
    r.push(FinishStep::InstallOthers { require_lease: !pending });
    r.push(FinishStep::InstallRemoved);
    r.push(FinishStep::ActivateRanges);
    if pending && moves && needs_replica_barrier(&change.target_topology) {
        r.push(FinishStep::SeedCopies);
    }
    if pending {
        r.push(FinishStep::NoteActivated);
        r.push(FinishStep::InstallAll { require_lease: true });
    }
    if !moves {
        r.push(FinishStep::ReleaseFence);
    }
    r.push(FinishStep::Note(MigrationPhase::CleaningUp));
    r.push(FinishStep::CleanSources);
    r.push(FinishStep::StopRemoved);
    r.push(FinishStep::Note(MigrationPhase::Complete));
    proof {
        assert(r@ =~= finish_plan(change@));
    }
    r
}

/// The steps that activate a predecessor that was published again.
pub open spec fn recovered_plan(change: ChangeView) -> Seq<FinishStep> {
    let seed = if waits_for_copies(change.target_topology) {
        seq![FinishStep::SeedCopies]
    } else {
        Seq::empty()
    };
    seq![
        FinishStep::InstallAll { require_lease: false },
        FinishStep::AwaitLeases,
        FinishStep::ReleaseSources,
    ] + seed + seq![
        FinishStep::NoteActivated,
        FinishStep::InstallAll { require_lease: true },
        FinishStep::Note(MigrationPhase::Complete),
    ]
}

/// The steps that activate a predecessor that was published again, if what it takes back is
/// known.
pub fn finish_recovered_change(change: &TopologyChange, superseded: &Option<TopologyChange>) -> (r:
    Result<Vec<FinishStep>, Status>)
    ensures
        match r {
            Ok(plan) => superseded is Some && plan@ == recovered_plan(change@),
            Err(status) => superseded is None && status@ == refusal(
                Code::FailedPrecondition,
                "superseded change is missing from durable state"@,
            ),
        },
{
    if superseded.is_none() {
        return Err(
            Status::new(
                Code::FailedPrecondition,
                "superseded change is missing from durable state",
            ),
        );
    }
    let mut r: Vec<FinishStep> = Vec::new();
    r.push(FinishStep::InstallAll { require_lease: false });
    r.push(FinishStep::AwaitLeases);
    r.push(FinishStep::ReleaseSources);
    if needs_replica_barrier(&change.target_topology) {
        r.push(FinishStep::SeedCopies);
    }
    r.push(FinishStep::NoteActivated);
    r.push(FinishStep::InstallAll { require_lease: true });
    r.push(FinishStep::Note(MigrationPhase::Complete));
    proof {
        assert(r@ =~= recovered_plan(change@));
    }
    Ok(r)
}

/// The latest end of a lease among the first `n`, or `floor` if that is later.
pub open spec fn latest_end(list: Seq<(Seq<char>, GrantView)>, floor: u64, n: nat) -> u64
    decreases n,
{
    if n == 0 {
        floor
    } else {
        let rest = latest_end(list, floor, (n - 1) as nat);
        if list[n - 1].1.expires_at > rest {
            list[n - 1].1.expires_at
        } else {
            rest
        }
    }
}

/// When every lease has run out, those from before the start included.
pub fn leases_end(grants: &Grants, startup_at: u64) -> (r: u64)
    requires
        startup_at + NODE_LEASE_DURATION_NANOS <= u64::MAX,
    ensures
        r == latest_end(
            listing_of::<String, GrantView>(shown(*grants)),
            (startup_at + NODE_LEASE_DURATION_NANOS) as u64,
            listing_of::<String, GrantView>(shown(*grants)).len(),
        ),
{
    grants.expose();
    let ghost l = listing(*grants);
    proof {
        lemma_listing(*grants);
    }
    let floor = startup_at + NODE_LEASE_DURATION_NANOS;
    let mut end = floor;
    let mut i: usize = 0;
    while i < grants.len()
        invariant
            l == listing(*grants),
            l.len() == grants.sequence().len(),
            i <= l.len(),
            end == latest_end(l, floor, i as nat),
        decreases l.len() - i,
    {
        let grant = grants.value_at(i);
        proof {
            assert(l[i as int].1 == grant@);
        }
        if grant.expires_at > end {
            end = grant.expires_at;
        }
        i = i + 1;
    }
    end
}

/// When the lease of a node has run out: the last one that is known, and any from before the
/// start.
pub open spec fn lease_end(
    grants: Map<Seq<char>, GrantView>,
    node: Seq<char>,
    startup_at: u64,
) -> u64 {
    let floor = (startup_at + NODE_LEASE_DURATION_NANOS) as u64;
    if grants.contains_key(node) && grants[node].expires_at > floor {
        grants[node].expires_at
    } else {
        floor
    }
}

/// When a failed node holds no lease any more: neither the last one that is known nor one from
/// before the start.
pub fn failure_safe_at(grants: &Grants, failed_node_id: &String, startup_at: u64) -> (r: u64)
    requires
        startup_at + NODE_LEASE_DURATION_NANOS <= u64::MAX,
    ensures
        r == lease_end(shown(*grants), failed_node_id@, startup_at),
{
    let floor = startup_at + NODE_LEASE_DURATION_NANOS;
    match grants.get(failed_node_id) {
        Some(grant) => if grant.expires_at > floor {
            grant.expires_at
        } else {
            floor
        },
        None => floor,
    }
}

/// Once `leases_end` has passed, no lease that is known holds.
pub proof fn law_leases_run_out(list: Seq<(Seq<char>, GrantView)>, floor: u64, n: nat, i: int)
    requires
        0 <= i < n,
    ensures
        list[i].1.expires_at <= latest_end(list, floor, n),
        floor <= latest_end(list, floor, n),
    decreases n,
{
    reveal_with_fuel(latest_end, 2);
    if n > 1 {
        if i < n - 1 {
            law_leases_run_out(list, floor, (n - 1) as nat, i);
        } else {
            law_leases_run_out(list, floor, (n - 1) as nat, 0);
        }
    }
}

/// How a change because of a failure goes on.
#[derive(Clone, Copy, Debug, Eq, PartialEq, Structural)]
pub enum FailureRoute {
    Done,
    /// Published: tell the survivors.
    Finish,
    /// Wait for the lease of the failed node, prove the coverage of the others and publish.
    Publish,
}

/// Decides how a change because of a failure goes on.
pub fn execute_failed_change(change: &TopologyChange) -> (r: Result<FailureRoute, Status>)
    ensures
        match r {
            Ok(route) => change@.failed_node_id is Some && !(change@.phase is Aborted) && route
                == match change@.phase {
                MigrationPhase::Complete => FailureRoute::Done,
                MigrationPhase::Published | MigrationPhase::CleaningUp => FailureRoute::Finish,
                _ => FailureRoute::Publish,
            },
            Err(status) => if change@.failed_node_id is None {
                status@ == refusal(Code::Internal, "failure transition omitted node identity"@)
            } else {
                change@.phase is Aborted && status@ == refusal(
                    Code::FailedPrecondition,
                    "failure transition was aborted"@,
                )
            },
        },
{
    if change.failed_node_id.is_none() {
        return Err(Status::new(Code::Internal, "failure transition omitted node identity"));
    }
    match change.phase {
        MigrationPhase::Complete => Ok(FailureRoute::Done),
        MigrationPhase::Published | MigrationPhase::CleaningUp => Ok(FailureRoute::Finish),
        MigrationPhase::Aborted => Err(
            Status::new(Code::FailedPrecondition, "failure transition was aborted"),
        ),
        _ => Ok(FailureRoute::Publish),
    }
}

/// Forgets the lease of a failed node and what was reported of it or by it.
pub fn finish_failed_change(
    grants: &mut Grants,
    failures: &mut PeerFailures,
    failed_node_id: &String,
)
    ensures
        shown(*final(grants)) == shown(*old(grants)).remove(failed_node_id@),
        final(failures)@ == kept(
            old(failures)@,
            |k: Report, v: PeerFailure| k.0 != failed_node_id@ && k.1 != failed_node_id@,
        ),
{
    let ghost before = shown(*grants);
    let _ = grants.remove(failed_node_id);
    proof {
        assert(shown(*grants) =~= before.remove(failed_node_id@));
    }
    let ghost holds = |k: Report, v: PeerFailure|
        k.0 != failed_node_id@ && k.1 != failed_node_id@;
    let keep = |k: &(String, String), v: &PeerFailure| -> (b: bool)
        ensures
            b == (k.0@ != failed_node_id@ && k.1@ != failed_node_id@),
        {
            !same_text(k.0.as_str(), failed_node_id.as_str()) && !same_text(
                k.1.as_str(),
                failed_node_id.as_str(),
            )
        };
    failures.retain(keep, Ghost(holds));
}

/// What is done to stop a node that leaves.
#[derive(Clone, Copy, Debug, Eq, PartialEq, Structural)]
pub enum StopStep {
    /// Note that it is being stopped.
    NoteStopping,
    /// Ask it which process it is.
    Identify,
    /// Tell it to prepare.
    Prepare,
    /// Note that its process may stop.
    NotePrepared,
    /// Ask it again which process it is.
    IdentifyAgain,
    /// Tell it to stop.
    Stop,
    /// Note that it has stopped.
    NoteStopped,
    Stopped,
    /// Report the failure.
    Failed,
}

/// What came of a step.
#[derive(Clone, Copy, Debug, Eq, PartialEq, Structural)]
pub enum StopEvent {
    Success,
    /// The node answers as the process that is to be stopped.
    SameProcess,
    /// The node answers as another one.
    OtherProcess,
    /// Nobody answers.
    Absent,
    /// Something else went wrong.
    Error,
}

impl ChangeView {
    /// Where stopping a node begins; nothing where it has stopped.
    pub open spec fn stop_start(self, node: Seq<char>) -> StopStep {
        if self.stopped_node_ids.contains(node) {
            StopStep::Stopped
        } else if self.stop_prepared_node_ids.contains(node) {
            StopStep::IdentifyAgain
        } else if self.stopping_node_ids.contains(node) {
            StopStep::Identify
        } else {
            StopStep::NoteStopping
        }
    }
}

/// Where stopping a node goes on. Before it may stop, a node that does not answer is an error,
/// unless its ranges were handed over by a merge: then it is taken for stopped.
pub open spec fn stop_after(step: StopStep, event: StopEvent, merged: bool) -> StopStep {
    match step {
        StopStep::NoteStopping => if event is Success {
            StopStep::Identify
        } else {
            StopStep::Failed
        },
        StopStep::Identify => match event {
            StopEvent::SameProcess => StopStep::Prepare,
            StopEvent::OtherProcess => StopStep::NoteStopped,
            StopEvent::Absent => if merged {
                StopStep::NoteStopped
            } else {
                StopStep::Failed
            },
            _ => StopStep::Failed,
        },
        StopStep::Prepare => if event is Success {
            StopStep::NotePrepared
        } else {
            StopStep::Failed
        },
        StopStep::NotePrepared => if !(event is Success) {
            StopStep::Failed
        } else if merged {
            StopStep::Stop
        } else {
            StopStep::IdentifyAgain
        },
        StopStep::IdentifyAgain => match event {
            StopEvent::SameProcess => StopStep::Stop,
            StopEvent::OtherProcess | StopEvent::Absent => StopStep::NoteStopped,
            _ => StopStep::Failed,
        },
        StopStep::Stop => match event {
            StopEvent::Success | StopEvent::Absent => StopStep::NoteStopped,
            _ => StopStep::Failed,
        },
        StopStep::NoteStopped => if event is Success {
            StopStep::Stopped
        } else {
            StopStep::Failed
        },
        StopStep::Stopped => StopStep::Stopped,
        StopStep::Failed => StopStep::Failed,
    }
}

/// Decides where stopping a node begins.
pub fn begin_stop(change: &TopologyChange, node: &String) -> (r: StopStep)
    ensures
        r == change@.stop_start(node@),
{
    if list_has(&change.stopped_node_ids, node.as_str()) {
        StopStep::Stopped
    } else if list_has(&change.stop_prepared_node_ids, node.as_str()) {
        StopStep::IdentifyAgain
    } else if list_has(&change.stopping_node_ids, node.as_str()) {
        StopStep::Identify
    } else {
        StopStep::NoteStopping
    }
}

/// Decides where stopping a node begins whose ranges were handed over by a merge: one without
/// a process has stopped.
pub fn begin_merged_stop(change: &TopologyChange, node: &String, registered: bool) -> (r: StopStep)
    ensures
        r == if change@.stopped_node_ids.contains(node@) {
            StopStep::Stopped
        } else if !registered {
            StopStep::NoteStopped
        } else {
            StopStep::NoteStopping
        },
{
    if list_has(&change.stopped_node_ids, node.as_str()) {
        StopStep::Stopped
    } else if !registered {
        StopStep::NoteStopped
    } else {
        StopStep::NoteStopping
    }
}

/// The members of a base that leave, in its order.
pub open spec fn leaves_with(target: SnapshotView) -> spec_fn(Member) -> bool {
    |m: Member| !target.is_member(m.node_id@)
}

/// The members that leave a base.
fn leaving_members(base: &TopologySnapshot, target: &TopologySnapshot) -> (r: Vec<Member>)
    ensures
        r@ == sifted(base.members@, leaves_with(target@)),
{
    let ghost s = base.members@;
    let ghost p = leaves_with(target@);
    let mut r: Vec<Member> = Vec::new();
    let mut i: usize = 0;
    proof {
        assert(s.subrange(0, 0) =~= Seq::empty());
        assert(r@ =~= Seq::empty());
    }
    while i < base.members.len()
        invariant
            s == base.members@,
            p == leaves_with(target@),
            i <= s.len(),
            r@ == sifted(s.subrange(0, i as int), p),
        decreases s.len() - i,
    {
        proof {
            lemma_sifted_prefix(s, i as int, p);
        }
        if target.member(base.members[i].node_id.as_str()).is_none() {
            r.push(base.members[i].clone());
        }
        i = i + 1;
    }
    proof {
        assert(s.subrange(0, s.len() as int) =~= s);
    }
    r
}

/// What is done once a merge is published.
pub enum MergeStep {
    /// Install the target at a node that leaves, without a lease.
    InstallLeaving(Member),
    /// Install the target at all members, with a lease.
    InstallMembers,
    /// Let the members that stay write again.
    ReleaseFence,
    /// Note that the change has come to a phase.
    Note(MigrationPhase),
    /// Stop a node that leaves.
    StopLeaving(Member),
}

pub enum MergeStepView {
    InstallLeaving(MemberView),
    InstallMembers,
    ReleaseFence,
    Note(MigrationPhase),
    StopLeaving(MemberView),
}

impl View for MergeStep {
    type V = MergeStepView;

    open spec fn view(&self) -> MergeStepView {
        match *self {
            MergeStep::InstallLeaving(member) => MergeStepView::InstallLeaving(member@),
            MergeStep::InstallMembers => MergeStepView::InstallMembers,
            MergeStep::ReleaseFence => MergeStepView::ReleaseFence,
            MergeStep::Note(phase) => MergeStepView::Note(phase),
            MergeStep::StopLeaving(member) => MergeStepView::StopLeaving(member@),
        }
    }
}

/// Telling those among the first `n` nodes that leave and have not stopped yet.
pub open spec fn told(leaving: Seq<MemberView>, stopped: Seq<Seq<char>>, n: nat) -> Seq<
    MergeStepView,
>
    decreases n,
{
    if n == 0 {
        Seq::empty()
    } else {
        let rest = told(leaving, stopped, (n - 1) as nat);
        if stopped.contains(leaving[n - 1].node_id) {
            rest
        } else {
            rest.push(MergeStepView::InstallLeaving(leaving[n - 1]))
        }
    }
}

/// Stopping the first `n` nodes that leave.
pub open spec fn stopping(leaving: Seq<MemberView>, n: nat) -> Seq<MergeStepView> {
    Seq::new(n, |i: int| MergeStepView::StopLeaving(leaving[i]))
}

/// The steps that finish a published merge: nodes that leave hear of it first, then members
/// take leases and write again, and only then are nodes stopped.
pub open spec fn merge_plan(leaving: Seq<MemberView>, stopped: Seq<Seq<char>>) -> Seq<
    MergeStepView,
> {
    told(leaving, stopped, leaving.len()) + seq![
        MergeStepView::InstallMembers,
        MergeStepView::ReleaseFence,
        MergeStepView::Note(MigrationPhase::CleaningUp),
    ] + stopping(leaving, leaving.len()) + seq![MergeStepView::Note(MigrationPhase::Complete)]
}

/// The steps that finish a published merge, if its base is known.
pub fn finish_direct_merge(change: &TopologyChange) -> (r: Result<Vec<MergeStep>, Status>)
    ensures
        match r {
            Ok(plan) => change.base_topology is Some && views(plan@) == merge_plan(
                member_views(
                    sifted(
                        change.base_topology->0.members@,
                        leaves_with(change@.target_topology),
                    ),
                ),
                change@.stopped_node_ids,
            ),
            Err(status) => change.base_topology is None && status@ == refusal(
                Code::Internal,
                "direct merge omitted base topology"@,
            ),
        },
{
    let base = match &change.base_topology {
        Some(base) => base,
        None => return Err(Status::new(Code::Internal, "direct merge omitted base topology")),
    };
    let leaving = leaving_members(base, &change.target_topology);
    let ghost l = member_views(leaving@);
    let ghost stopped = change@.stopped_node_ids;
    let mut r: Vec<MergeStep> = Vec::new();
    let mut i: usize = 0;
    proof {
        assert(views(r@) =~= told(l, stopped, 0));
    }
    while i < leaving.len()
        invariant
            l == member_views(leaving@),
            stopped == change@.stopped_node_ids,
            i <= leaving@.len(),
            views(r@) == told(l, stopped, i as nat),
        decreases leaving.len() - i,
    {
        proof {
            assert(l[i as int] == leaving@[i as int]@);
        }
        if !list_has(&change.stopped_node_ids, leaving[i].node_id.as_str()) {
            let step = MergeStep::InstallLeaving(leaving[i].clone());
            proof {
                lemma_views_push(r@, step);
            }
            r.push(step);
        }
        i = i + 1;
    }
    let ghost first = views(r@);
    r.push(MergeStep::InstallMembers);
    r.push(MergeStep::ReleaseFence);
    r.push(MergeStep::Note(MigrationPhase::CleaningUp));
    let ghost middle = seq![
        MergeStepView::InstallMembers,
        MergeStepView::ReleaseFence,
        MergeStepView::Note(MigrationPhase::CleaningUp),
    ];
    let mut i: usize = 0;
    proof {
        assert(views(r@) =~= first + middle + stopping(l, 0));
    }
    while i < leaving.len()
        invariant
            l == member_views(leaving@),
            i <= leaving@.len(),
            views(r@) == first + middle + stopping(l, i as nat),
        decreases leaving.len() - i,
    {
        let step = MergeStep::StopLeaving(leaving[i].clone());
        proof {
            assert(l[i as int] == leaving@[i as int]@);
            lemma_views_push(r@, step);
            assert(stopping(l, (i + 1) as nat) =~= stopping(l, i as nat).push(step@));
            assert((first + middle + stopping(l, i as nat)).push(step@) =~= first + middle
                + stopping(l, i as nat).push(step@));
        }
        r.push(step);
        i = i + 1;
    }
    let ghost before = r@;
    r.push(MergeStep::Note(MigrationPhase::Complete));
    proof {
        lemma_views_push(before, MergeStep::Note(MigrationPhase::Complete));
        assert(views(r@) =~= merge_plan(l, stopped));
    }
    Ok(r)
}

proof fn lemma_told(leaving: Seq<MemberView>, stopped: Seq<Seq<char>>, n: nat)
    ensures
        forall|i: int|
            0 <= i < told(leaving, stopped, n).len() ==> (#[trigger] told(
                leaving,
                stopped,
                n,
            )[i]) is InstallLeaving,
    decreases n,
{
    if n > 0 {
        lemma_told(leaving, stopped, (n - 1) as nat);
    }
}

/// A merge lets members take leases only after every node that leaves was told, and stops
/// those nodes only after that.
pub proof fn law_merged_nodes_are_told_first_and_stopped_last(
    leaving: Seq<MemberView>,
    stopped: Seq<Seq<char>>,
    i: int,
    j: int,
)
    requires
        0 <= i < merge_plan(leaving, stopped).len(),
        0 <= j < merge_plan(leaving, stopped).len(),
        merge_plan(leaving, stopped)[j] is InstallMembers,
    ensures
        merge_plan(leaving, stopped)[i] is InstallLeaving ==> i < j,
        merge_plan(leaving, stopped)[i] is StopLeaving ==> i > j,
        merge_plan(leaving, stopped)[i] is ReleaseFence ==> i > j,
{
    lemma_told(leaving, stopped, leaving.len());
}

/// Decides where stopping a node goes on.
pub fn next_stop_step(step: StopStep, event: StopEvent, merged: bool) -> (r: StopStep)
    ensures
        r == stop_after(step, event, merged),
{
    match step {
        StopStep::NoteStopping => if event == StopEvent::Success {
            StopStep::Identify
        } else {
            StopStep::Failed
        },
        StopStep::Identify => match event {
            StopEvent::SameProcess => StopStep::Prepare,
            StopEvent::OtherProcess => StopStep::NoteStopped,
            StopEvent::Absent => if merged {
                StopStep::NoteStopped
            } else {
                StopStep::Failed
            },
            _ => StopStep::Failed,
        },
        StopStep::Prepare => if event == StopEvent::Success {
            StopStep::NotePrepared
        } else {
            StopStep::Failed
        },
        StopStep::NotePrepared => if event != StopEvent::Success {
            StopStep::Failed
        } else if merged {
            StopStep::Stop
        } else {
            StopStep::IdentifyAgain
        },
        StopStep::IdentifyAgain => match event {
            StopEvent::SameProcess => StopStep::Stop,
            StopEvent::OtherProcess | StopEvent::Absent => StopStep::NoteStopped,
            _ => StopStep::Failed,
        },
        StopStep::Stop => match event {
            StopEvent::Success | StopEvent::Absent => StopStep::NoteStopped,
            _ => StopStep::Failed,
        },
        StopStep::NoteStopped => if event == StopEvent::Success {
            StopStep::Stopped
        } else {
            StopStep::Failed
        },
        StopStep::Stopped => StopStep::Stopped,
        StopStep::Failed => StopStep::Failed,
    }
}

/// Where stopping a node stands after so many steps.
pub open spec fn stop_run(merged: bool, events: Seq<StopEvent>) -> StopStep
    decreases events.len(),
{
    if events.len() == 0 {
        StopStep::NoteStopping
    } else {
        stop_after(stop_run(merged, events.drop_last()), events.last(), merged)
    }
}

/// A node is told to stop only after it was told to prepare and its process was noted.
pub proof fn law_nodes_prepare_before_they_stop(merged: bool, events: Seq<StopEvent>)
    requires
        stop_run(merged, events) is Stop,
    ensures
        exists|n: int|
            #![trigger events.subrange(0, n)]
            0 <= n < events.len() && stop_run(merged, events.subrange(0, n)) is NotePrepared
                && events[n] is Success,
    decreases events.len(),
{
    let before = events.drop_last();
    let n = before.len() as int;
    assert(events.subrange(0, n) =~= before);
    if stop_run(merged, before) is NotePrepared {
    } else {
        assert(stop_run(merged, before) is IdentifyAgain);
        let older = before.drop_last();
        assert(events.subrange(0, n - 1) =~= older);
        assert(stop_run(merged, older) is NotePrepared);
        assert(events[n - 1] == before.last());
    }
}

/// Nobody takes a lease under a new topology before it is activated: until then the target is
/// installed without one.
pub proof fn law_leases_wait_for_activation(change: ChangeView, i: int)
    requires
        !change.activation_ready,
        0 <= i < finish_plan(change).len(),
        finish_plan(change)[i] is InstallAll,
    ensures
        exists|j: int|
            #![trigger finish_plan(change)[j]]
            0 <= j < i && finish_plan(change)[j] is NoteActivated,
        !finish_plan(change).contains(FinishStep::InstallDestinations { require_lease: true }),
        !finish_plan(change).contains(FinishStep::InstallOthers { require_lease: true }),
{
    let plan = finish_plan(change);
    assert(plan[i - 1] is NoteActivated);
}

} // verus!
