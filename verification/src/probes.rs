//! Watching the nodes that take part in a change.
use crate::cluster::{ClusterState, ClusterView};
use crate::leases::NODE_LEASE_DURATION_NANOS;
use crate::migration::{ChangeView, MigrationPhase, TopologyChange};
use crate::ordmap::{lemma_listing, listing, listing_of, shown, SortedMap};
use crate::text::{joined, same_text};
use crate::topology::{member_views, Member, MemberView};
use crate::views::{lemma_views_push, opt, views};
use vstd::arithmetic::div_mod::{lemma_add_mod_noop, lemma_mod_self_0, lemma_small_mod};
use vstd::prelude::*;

verus! {

/// How many nodes are probed in one pass.
pub const MAX_PENDING_PROBES_PER_PASS: usize = 32;

/// How long a node may be silent before a change is published.
pub const PREPUBLICATION_FAILURE_GRACE_NANOS: u64 = 30_000_000_000;

/// A node to probe and the process that it is expected to run.
pub struct Probe {
    pub member: Member,
    pub process_instance_id: String,
}

#[verifier::ext_equal]
pub struct ProbeView {
    pub member: MemberView,
    pub process_instance_id: Seq<char>,
}

impl View for Probe {
    type V = ProbeView;

    open spec fn view(&self) -> ProbeView {
        ProbeView { member: self.member@, process_instance_id: self.process_instance_id@ }
    }
}

impl Probe {
    /// Tells whether the expected process of the expected node has answered.
    pub fn answered_by(&self, node_id: &str, process_instance_id: &str) -> (r: bool)
        ensures
            r == (node_id@ == self@.member.node_id && process_instance_id@
                == self@.process_instance_id),
    {
        same_text(node_id, self.member.node_id.as_str()) && same_text(
            process_instance_id,
            self.process_instance_id.as_str(),
        )
    }
}

/// Why recovery from the outage of a node is blocked.
pub fn blocked_by_outage(failed_node_id: &str, error: &str) -> (r: String)
    ensures
        r@ == "confirmed unavailable node "@ + failed_node_id@ + "; recovery is blocked: "@
            + error@,
{
    let mut r = joined("confirmed unavailable node ", failed_node_id);
    r.append("; recovery is blocked: ");
    r.append(error);
    r
}

/// Members by name, with the first `n` of a list; of two with one name the later counts.
pub open spec fn by_name(members: Seq<MemberView>, n: nat) -> Map<Seq<char>, MemberView>
    decreases n,
{
    if n == 0 {
        Map::empty()
    } else {
        by_name(members, (n - 1) as nat).insert(members[n - 1].node_id, members[n - 1])
    }
}

/// Members by name, and the first `n` of a list where their names are new.
pub open spec fn joined_by_name(
    known: Map<Seq<char>, MemberView>,
    members: Seq<MemberView>,
    n: nat,
) -> Map<Seq<char>, MemberView>
    decreases n,
{
    if n == 0 {
        known
    } else {
        let rest = joined_by_name(known, members, (n - 1) as nat);
        if rest.contains_key(members[n - 1].node_id) {
            rest
        } else {
            rest.insert(members[n - 1].node_id, members[n - 1])
        }
    }
}

impl ChangeView {
    /// The nodes that take part in a change: those of its target, and, until its sources are
    /// cleaned up, those of its base.
    pub open spec fn participants(self) -> Map<Seq<char>, MemberView> {
        let target = by_name(self.target_topology.members, self.target_topology.members.len());
        if self.base_topology is Some && !(self.phase is CleaningUp || self.phase is Complete) {
            joined_by_name(
                target,
                self.base_topology->0.members,
                self.base_topology->0.members.len(),
            )
        } else {
            target
        }
    }
}

impl ClusterView {
    /// The probes of those among the first `n` listed nodes that run a process.
    pub open spec fn probes(self, list: Seq<(Seq<char>, MemberView)>, n: nat) -> Seq<ProbeView>
        decreases n,
    {
        if n == 0 {
            Seq::empty()
        } else {
            let rest = self.probes(list, (n - 1) as nat);
            let node = list[n - 1].1.node_id;
            if self.process_instances.contains_key(node) {
                rest.push(
                    ProbeView {
                        member: list[n - 1].1,
                        process_instance_id: self.process_instances[node],
                    },
                )
            } else {
                rest
            }
        }
    }

    /// The probes of all nodes that take part in a change, in the order of their names.
    pub open spec fn change_probes(self, change: ChangeView) -> Seq<ProbeView> {
        let list = listing_of::<String, MemberView>(change.participants());
        self.probes(list, list.len())
    }
}

fn gather_participants(change: &TopologyChange) -> (r: SortedMap<String, Member>)
    ensures
        shown(r) == change@.participants(),
{
    let ghost t = change@.target_topology.members;
    let mut r: SortedMap<String, Member> = SortedMap::new();
    let mut i: usize = 0;
    proof {
        assert(shown(r) =~= by_name(t, 0));
    }
    while i < change.target_topology.members.len()
        invariant
            t == member_views(change.target_topology.members@),
            i <= change.target_topology.members@.len(),
            shown(r) == by_name(t, i as nat),
        decreases change.target_topology.members.len() - i,
    {
        let member = &change.target_topology.members[i];
        let ghost before = shown(r);
        proof {
            assert(t[i as int] == member@);
        }
        let _ = r.insert(member.node_id.clone(), member.clone());
        proof {
            assert(shown(r) =~= before.insert(member@.node_id, member@));
        }
        i = i + 1;
    }
    let base = match &change.base_topology {
        Some(base) => base,
        None => return r,
    };
    if change.phase == MigrationPhase::CleaningUp || change.phase == MigrationPhase::Complete {
        return r;
    }
    let ghost b = base@.members;
    let ghost known = shown(r);
    let mut i: usize = 0;
    while i < base.members.len()
        invariant
            b == member_views(base.members@),
            i <= base.members@.len(),
            shown(r) == joined_by_name(known, b, i as nat),
        decreases base.members.len() - i,
    {
        let member = &base.members[i];
        let ghost before = shown(r);
        proof {
            assert(b[i as int] == member@);
        }
        if !r.contains(&member.node_id) {
            let _ = r.insert(member.node_id.clone(), member.clone());
            proof {
                assert(shown(r) =~= before.insert(member@.node_id, member@));
            }
        }
        i = i + 1;
    }
    r
}

impl ClusterState {
    /// Lists the nodes that take part in a change, with the processes that they run.
    pub fn change_probes(&self, change: &TopologyChange) -> (r: Vec<Probe>)
        ensures
            views(r@) == self@.change_probes(change@),
    {
        let participants = gather_participants(change);
        participants.expose();
        let ghost l = listing(participants);
        proof {
            lemma_listing(participants);
        }
        let mut r: Vec<Probe> = Vec::new();
        let mut i: usize = 0;
        proof {
            assert(views(r@) =~= self@.probes(l, 0));
        }
        while i < participants.len()
            invariant
                l == listing(participants),
                l.len() == participants.sequence().len(),
                i <= l.len(),
                views(r@) == self@.probes(l, i as nat),
            decreases l.len() - i,
        {
            let member = participants.value_at(i);
            proof {
                assert(l[i as int].1 == member@);
            }
            if let Some(instance) = self.process_instances.get(&member.node_id) {
                let probe = Probe { member: member.clone(), process_instance_id: instance.clone() };
                proof {
                    lemma_views_push(r@, probe);
                    assert(probe@ =~= ProbeView {
                        member: l[i as int].1,
                        process_instance_id: self@.process_instances[l[i as int].1.node_id],
                    });
                }
                r.push(probe);
            }
            i = i + 1;
        }
        r
    }
}

/// How many nodes are probed at once.
pub open spec fn probe_count(n: nat) -> nat {
    if n < MAX_PENDING_PROBES_PER_PASS {
        n
    } else {
        MAX_PENDING_PROBES_PER_PASS as nat
    }
}

/// The probes of one pass: so many from where the last one ended, around the list.
pub open spec fn probes_from(list: Seq<ProbeView>, cursor: nat) -> Seq<ProbeView> {
    Seq::new(
        probe_count(list.len()),
        |i: int| list[(cursor as int + i) % (list.len() as int)],
    )
}

/// Picks the probes of one pass, and tells where the next one begins.
pub fn select_probes(list: &Vec<Probe>, cursor: usize) -> (r: (Vec<Probe>, usize))
    ensures
        views(r.0@) == probes_from(views(list@), cursor as nat),
        list@.len() == 0 ==> r.1 == cursor,
        list@.len() > 0 ==> r.1 == (cursor as nat % list@.len() + probe_count(list@.len()))
            % list@.len(),
{
    let n = list.len();
    let mut picked: Vec<Probe> = Vec::new();
    if n == 0 {
        proof {
            assert(views(picked@) =~= probes_from(views(list@), cursor as nat));
        }
        return (picked, cursor);
    }
    let count = if n < MAX_PENDING_PROBES_PER_PASS {
        n
    } else {
        MAX_PENDING_PROBES_PER_PASS
    };
    let start = cursor % n;
    let mut at = start;
    let mut i: usize = 0;
    proof {
        lemma_small_mod(start as nat, n as nat);
    }
    while i < count
        invariant
            n == list@.len(),
            n > 0,
            count == probe_count(n as nat),
            count <= n,
            start == cursor % n,
            i <= count,
            at < n,
            at == (start + i) % (n as int),
            picked@.len() == i,
            forall|j: int|
                0 <= j < i ==> (#[trigger] picked@[j])@ == list@[(cursor as int + j) % (n as int)]@,
        decreases count - i,
    {
        let probe = &list[at];
        proof {
            assert((cursor as int + i as int) % (n as int) == at) by {
                lemma_add_mod_noop(cursor as int, i as int, n as int);
                lemma_add_mod_noop(start as int, i as int, n as int);
                lemma_small_mod(start as nat, n as nat);
            }
        }
        picked.push(
            Probe {
                member: probe.member.clone(),
                process_instance_id: probe.process_instance_id.clone(),
            },
        );
        let next = if at + 1 == n {
            0
        } else {
            at + 1
        };
        proof {
            assert((start + i + 1) % (n as int) == next) by {
                lemma_add_mod_noop(start + i as int, 1, n as int);
                lemma_add_mod_noop(at as int, 1, n as int);
                lemma_small_mod(at as nat, n as nat);
                if at + 1 == n {
                    lemma_mod_self_0(n as int);
                } else {
                    lemma_small_mod((at + 1) as nat, n as nat);
                }
            }
        }
        at = next;
        i = i + 1;
    }
    proof {
        assert(views(picked@) =~= probes_from(views(list@), cursor as nat));
    }
    (picked, at)
}

/// What a probe found.
pub struct ProbeResult {
    pub node_id: String,
    pub healthy: bool,
}

impl View for ProbeResult {
    type V = (Seq<char>, bool);

    open spec fn view(&self) -> (Seq<char>, bool) {
        (self.node_id@, self.healthy)
    }
}

/// Since when nodes are silent, and the first of them that has been for too long.
#[verifier::ext_equal]
pub struct Outages {
    pub since: Map<Seq<char>, u64>,
    pub confirmed: Option<Seq<char>>,
}

/// How long a node may be silent in a phase.
pub open spec fn silence_limit(phase: MigrationPhase) -> u64 {
    if phase is Published || phase is CleaningUp {
        NODE_LEASE_DURATION_NANOS
    } else {
        PREPUBLICATION_FAILURE_GRACE_NANOS
    }
}

/// What is known after the first `n` probes.
pub open spec fn noted(
    since: Map<Seq<char>, u64>,
    results: Seq<(Seq<char>, bool)>,
    limit: u64,
    now: u64,
    n: nat,
) -> Outages
    decreases n,
{
    if n == 0 {
        Outages { since: since, confirmed: None }
    } else {
        let before = noted(since, results, limit, now, (n - 1) as nat);
        let node = results[n - 1].0;
        if results[n - 1].1 {
            Outages { since: before.since.remove(node), confirmed: before.confirmed }
        } else {
            let first = if before.since.contains_key(node) {
                before.since[node]
            } else {
                now
            };
            Outages {
                since: before.since.insert(node, first),
                confirmed: if before.confirmed is None && first + limit <= now {
                    Some(node)
                } else {
                    before.confirmed
                },
            }
        }
    }
}

/// A node is one of those that are probed.
pub open spec fn is_probed(list: Seq<ProbeView>, node: Seq<char>) -> bool {
    exists|i: int| 0 <= i < list.len() && (#[trigger] list[i]).member.node_id == node
}

fn probed(list: &Vec<Probe>, node: &String) -> (r: bool)
    ensures
        r == is_probed(views(list@), node@),
{
    let ghost s = views(list@);
    let mut i: usize = 0;
    while i < list.len()
        invariant
            s == views(list@),
            i <= list@.len(),
            forall|j: int| 0 <= j < i ==> (#[trigger] s[j]).member.node_id != node@,
        decreases list.len() - i,
    {
        proof {
            assert(s[i as int] == list@[i as int]@);
        }
        if same_text(list[i].member.node_id.as_str(), node.as_str()) {
            return true;
        }
        i = i + 1;
    }
    false
}

/// Takes note of what probes found, and tells which node has been silent for too long.
pub fn note_probes(
    outages: &mut SortedMap<String, u64>,
    candidates: &Vec<Probe>,
    results: &Vec<ProbeResult>,
    phase: MigrationPhase,
    now: u64,
) -> (confirmed: Option<String>)
    ensures
        ({
            let found = noted(
                old(outages)@.restrict(
                    Set::new(|node: Seq<char>| is_probed(views(candidates@), node)),
                ),
                views(results@),
                silence_limit(phase),
                now,
                results@.len(),
            );
            &&& final(outages)@ == found.since
            &&& opt(confirmed) == found.confirmed
        }),
{
    let ghost before = outages@;
    let ghost s = views(results@);
    let ghost c = views(candidates@);
    let ghost holds = |k: Seq<char>, v: u64| is_probed(c, k);
    let keep = |k: &String, v: &u64| -> (b: bool)
        ensures
            b == is_probed(views(candidates@), k@),
        { probed(candidates, k) };
    outages.retain(keep, Ghost(holds));
    let limit = if phase == MigrationPhase::Published || phase == MigrationPhase::CleaningUp {
        NODE_LEASE_DURATION_NANOS
    } else {
        PREPUBLICATION_FAILURE_GRACE_NANOS
    };
    let ghost start = before.restrict(Set::new(|node: Seq<char>| is_probed(c, node)));
    proof {
        assert(outages@ =~= start);
    }
    let mut confirmed: Option<String> = None;
    let mut i: usize = 0;
    while i < results.len()
        invariant
            s == views(results@),
            limit == silence_limit(phase),
            i <= results@.len(),
            outages@ == noted(start, s, limit, now, i as nat).since,
            opt(confirmed) == noted(start, s, limit, now, i as nat).confirmed,
        decreases results.len() - i,
    {
        let node = &results[i].node_id;
        proof {
            assert(s[i as int] == results@[i as int]@);
        }
        if results[i].healthy {
            let _ = outages.remove(node);
        } else {
            let first = match outages.get(node) {
                Some(first) => *first,
                None => now,
            };
            let _ = outages.insert(node.clone(), first);
            if confirmed.is_none() && now >= first && now - first >= limit {
                confirmed = Some(node.clone());
            }
        }
        i = i + 1;
    }
    confirmed
}

/// A node that answers is not taken for silent, whatever was noted of it before.
pub proof fn law_answers_end_an_outage(
    since: Map<Seq<char>, u64>,
    results: Seq<(Seq<char>, bool)>,
    limit: u64,
    now: u64,
)
    requires
        results.len() > 0,
        results.last().1,
    ensures
        !noted(since, results, limit, now, results.len()).since.contains_key(results.last().0),
{
}

} // verus!
