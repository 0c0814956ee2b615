//! What a coordinator remembers of its cluster.
use crate::migration::{
    migration_error_text, ChangeView, MigrationError, MigrationPhase, TopologyChange,
    MAX_MIGRATION_RANGES, MAX_REPLICA_OBLIGATIONS,
};
use crate::ordmap::{
    entry_index, lemma_entry, shown, unique_entries, MapKey, SortedMap,
};
use crate::ring::RangeView;
use crate::sets::SortedSet;
use crate::text::{around_number, decimal_text, owned, same_text};
use crate::topology::{
    range_views, topology_error_text, validation_error, DerivedRange, SnapshotView, TopologyError,
    TopologySnapshot,
};
use crate::topology_laws::law_valid_topologies_are_canonical;
use crate::views::{duplicate_all, duplicate_opt, opt, views, Duplicate};
use vstd::prelude::*;

verus! {

/// An interval, its owner and a node that follows it there.
pub type Place = (u64, (u64, (Seq<char>, Seq<char>)));

pub type PlaceKey = (u64, (u64, (String, String)));

/// A follower whose copy of a range was verified.
#[derive(Debug, Eq, PartialEq)]
pub struct ReplicaAdmission {
    pub epoch: u64,
    pub start_exclusive: u64,
    pub end_inclusive: u64,
    pub owner_node_id: String,
    pub node_id: String,
    pub process_instance_id: String,
    pub verified_watermark: u64,
    pub stream_cursor: u64,
    pub digest: String,
}

#[verifier::ext_equal]
pub struct AdmissionView {
    pub epoch: u64,
    pub start_exclusive: u64,
    pub end_inclusive: u64,
    pub owner_node_id: Seq<char>,
    pub node_id: Seq<char>,
    pub process_instance_id: Seq<char>,
    pub verified_watermark: u64,
    pub stream_cursor: u64,
    pub digest: Seq<char>,
}

impl AdmissionView {
    pub open spec fn place(self) -> Place {
        (self.start_exclusive, (self.end_inclusive, (self.owner_node_id, self.node_id)))
    }
}

impl View for ReplicaAdmission {
    type V = AdmissionView;

    open spec fn view(&self) -> AdmissionView {
        AdmissionView {
            epoch: self.epoch,
            start_exclusive: self.start_exclusive,
            end_inclusive: self.end_inclusive,
            owner_node_id: self.owner_node_id@,
            node_id: self.node_id@,
            process_instance_id: self.process_instance_id@,
            verified_watermark: self.verified_watermark,
            stream_cursor: self.stream_cursor,
            digest: self.digest@,
        }
    }
}

impl Clone for ReplicaAdmission {
    fn clone(&self) -> (r: Self)
        ensures
            r == *self,
    {
        ReplicaAdmission {
            epoch: self.epoch,
            start_exclusive: self.start_exclusive,
            end_inclusive: self.end_inclusive,
            owner_node_id: self.owner_node_id.clone(),
            node_id: self.node_id.clone(),
            process_instance_id: self.process_instance_id.clone(),
            verified_watermark: self.verified_watermark,
            stream_cursor: self.stream_cursor,
            digest: self.digest.clone(),
        }
    }
}

impl Duplicate for ReplicaAdmission {
    fn duplicate(&self) -> (r: Self) {
        self.clone()
    }
}

impl ReplicaAdmission {
    pub fn place(&self) -> (r: PlaceKey)
        ensures
            r.id() == self@.place(),
    {
        (
            self.start_exclusive,
            (self.end_inclusive, (self.owner_node_id.clone(), self.node_id.clone())),
        )
    }
}

/// How far the repair of a copy has come.
#[derive(Clone, Copy, Debug, Eq, PartialEq, Structural)]
pub enum ReplicaRepairPhase {
    Pending,
    Copying,
    Verifying,
    Complete,
}

/// A copy of a range that a follower has to be given.
#[derive(Debug, Eq, PartialEq)]
pub struct ReplicaRepair {
    pub epoch: u64,
    pub start_exclusive: u64,
    pub end_inclusive: u64,
    pub owner_node_id: String,
    pub node_id: String,
    pub phase: ReplicaRepairPhase,
    pub retry_count: u32,
    pub next_attempt_unix_millis: u64,
    pub last_error: String,
}

#[verifier::ext_equal]
pub struct RepairView {
    pub epoch: u64,
    pub start_exclusive: u64,
    pub end_inclusive: u64,
    pub owner_node_id: Seq<char>,
    pub node_id: Seq<char>,
    pub phase: ReplicaRepairPhase,
    pub retry_count: u32,
    pub next_attempt_unix_millis: u64,
    pub last_error: Seq<char>,
}

impl RepairView {
    pub open spec fn place(self) -> Place {
        (self.start_exclusive, (self.end_inclusive, (self.owner_node_id, self.node_id)))
    }
}

impl View for ReplicaRepair {
    type V = RepairView;

    open spec fn view(&self) -> RepairView {
        RepairView {
            epoch: self.epoch,
            start_exclusive: self.start_exclusive,
            end_inclusive: self.end_inclusive,
            owner_node_id: self.owner_node_id@,
            node_id: self.node_id@,
            phase: self.phase,
            retry_count: self.retry_count,
            next_attempt_unix_millis: self.next_attempt_unix_millis,
            last_error: self.last_error@,
        }
    }
}

impl Clone for ReplicaRepair {
    fn clone(&self) -> (r: Self)
        ensures
            r == *self,
    {
        ReplicaRepair {
            epoch: self.epoch,
            start_exclusive: self.start_exclusive,
            end_inclusive: self.end_inclusive,
            owner_node_id: self.owner_node_id.clone(),
            node_id: self.node_id.clone(),
            phase: self.phase,
            retry_count: self.retry_count,
            next_attempt_unix_millis: self.next_attempt_unix_millis,
            last_error: self.last_error.clone(),
        }
    }
}

impl Duplicate for ReplicaRepair {
    fn duplicate(&self) -> (r: Self) {
        self.clone()
    }
}

impl ReplicaRepair {
    pub fn place(&self) -> (r: PlaceKey)
        ensures
            r.id() == self@.place(),
    {
        (
            self.start_exclusive,
            (self.end_inclusive, (self.owner_node_id.clone(), self.node_id.clone())),
        )
    }
}

/// A repair that was not begun.
pub open spec fn fresh_repair(epoch: u64, place: Place) -> RepairView {
    RepairView {
        epoch: epoch,
        start_exclusive: place.0,
        end_inclusive: (place.1).0,
        owner_node_id: ((place.1).1).0,
        node_id: ((place.1).1).1,
        phase: ReplicaRepairPhase::Pending,
        retry_count: 0,
        next_attempt_unix_millis: 0,
        last_error: Seq::empty(),
    }
}

/// What a coordinator remembers of its cluster.
pub struct ClusterState {
    pub committed: TopologySnapshot,
    pub active_change: Option<TopologyChange>,
    pub superseded_change: Option<TopologyChange>,
    /// The process of each node.
    pub process_instances: SortedMap<String, String>,
    /// The processes of each node that may stop.
    pub stop_confirmations: SortedMap<String, SortedSet<String>>,
    pub replica_admissions: Vec<ReplicaAdmission>,
    pub replica_repairs: Vec<ReplicaRepair>,
    pub fenced_nodes: SortedSet<String>,
    pub recovery_block_reason: String,
}

#[verifier::ext_equal]
pub struct ClusterView {
    pub committed: SnapshotView,
    pub active_change: Option<ChangeView>,
    pub superseded_change: Option<ChangeView>,
    pub process_instances: Map<Seq<char>, Seq<char>>,
    pub stop_confirmations: Map<Seq<char>, Set<Seq<char>>>,
    pub replica_admissions: Seq<AdmissionView>,
    pub replica_repairs: Seq<RepairView>,
    pub fenced_nodes: Set<Seq<char>>,
    pub recovery_block_reason: Seq<char>,
}

impl View for ClusterState {
    type V = ClusterView;

    open spec fn view(&self) -> ClusterView {
        ClusterView {
            committed: self.committed@,
            active_change: opt(self.active_change),
            superseded_change: opt(self.superseded_change),
            process_instances: shown(self.process_instances),
            stop_confirmations: shown(self.stop_confirmations),
            replica_admissions: views(self.replica_admissions@),
            replica_repairs: views(self.replica_repairs@),
            fenced_nodes: self.fenced_nodes@,
            recovery_block_reason: self.recovery_block_reason@,
        }
    }
}

impl<K: MapKey> Duplicate for SortedSet<K> {
    fn duplicate(&self) -> (r: Self) {
        self.duplicate_set()
    }
}

/// Copies a map.
pub fn copy_map<K: MapKey, V: Duplicate>(m: &SortedMap<K, V>) -> (r: SortedMap<K, V>)
    ensures
        shown(r) == shown(*m),
{
    m.expose();
    let ghost s = m.sequence();
    let mut r: SortedMap<K, V> = SortedMap::new();
    let mut i: usize = 0;
    while i < m.len()
        invariant
            s == m.sequence(),
            unique_entries(s),
            i <= s.len(),
            forall|j: int|
                0 <= j < i ==> shown(r).contains_key((#[trigger] s[j]).0) && shown(r)[s[j].0]
                    == s[j].1@,
            forall|k: K::Id| #[trigger]
                shown(r).contains_key(k) ==> shown(*m).contains_key(k) && shown(r)[k]
                    == shown(*m)[k],
        decreases s.len() - i,
    {
        let key = m.key_at(i).copy();
        let value = m.value_at(i).duplicate();
        let ghost before = shown(r);
        let ghost held = value@;
        proof {
            lemma_entry(s, i as int);
            assert(shown(*m).contains_key(s[i as int].0));
            assert(shown(*m)[s[i as int].0] == held);
        }
        let _ = r.insert(key, value);
        proof {
            assert(shown(r) =~= before.insert(s[i as int].0, held));
            assert forall|j: int| 0 <= j < i + 1 implies shown(r).contains_key(
                (#[trigger] s[j]).0,
            ) && shown(r)[s[j].0] == s[j].1@ by {
                lemma_entry(s, j);
            }
        }
        i = i + 1;
    }
    proof {
        assert forall|k: K::Id| #[trigger] shown(*m).contains_key(k) implies shown(r).contains_key(
            k,
        ) by {
            let j = entry_index(s, k);
            lemma_entry(s, j);
        }
        assert(shown(r) =~= shown(*m));
    }
    r
}

impl Clone for ClusterState {
    fn clone(&self) -> (r: Self)
        ensures
            r@ == self@,
    {
        ClusterState {
            committed: self.committed.clone(),
            active_change: duplicate_opt(&self.active_change),
            superseded_change: duplicate_opt(&self.superseded_change),
            process_instances: copy_map(&self.process_instances),
            stop_confirmations: copy_map(&self.stop_confirmations),
            replica_admissions: duplicate_all(&self.replica_admissions),
            replica_repairs: duplicate_all(&self.replica_repairs),
            fenced_nodes: self.fenced_nodes.duplicate_set(),
            recovery_block_reason: self.recovery_block_reason.clone(),
        }
    }
}

/// Where each follower of a range stands.
pub open spec fn range_places(range: RangeView) -> Seq<Place> {
    Seq::new(
        range.follower_node_ids.len(),
        |i: int|
            (
                range.start_exclusive,
                (range.end_inclusive, (range.owner_node_id, range.follower_node_ids[i])),
            ),
    )
}

/// Where each follower of the first `n` ranges stands.
pub open spec fn places(ranges: Seq<RangeView>, n: nat) -> Seq<Place>
    decreases n,
{
    if n == 0 {
        Seq::empty()
    } else {
        places(ranges, (n - 1) as nat) + range_places(ranges[n - 1])
    }
}

impl SnapshotView {
    /// Every copy that a follower has to hold.
    pub open spec fn duties(self) -> Seq<Place> {
        places(self.ranges(), self.ranges().len())
    }
}

/// What places stand for.
pub open spec fn place_ids(list: Seq<PlaceKey>) -> Seq<Place> {
    Seq::new(list.len(), |i: int| list[i].id())
}

/// Lists every copy that a follower has to hold.
pub fn list_duties(ranges: &Vec<DerivedRange>) -> (r: Vec<PlaceKey>)
    ensures
        place_ids(r@) == places(range_views(ranges@), ranges@.len()),
{
    let ghost s = range_views(ranges@);
    let mut r: Vec<PlaceKey> = Vec::new();
    let mut i: usize = 0;
    proof {
        assert(place_ids(r@) =~= places(s, 0));
    }
    while i < ranges.len()
        invariant
            s == range_views(ranges@),
            i <= ranges@.len(),
            place_ids(r@) == places(s, i as nat),
        decreases ranges.len() - i,
    {
        let range = &ranges[i];
        let ghost before = r@;
        proof {
            assert(s[i as int] == range@);
        }
        let mut j: usize = 0;
        while j < range.follower_node_ids.len()
            invariant
                s == range_views(ranges@),
                i < ranges@.len(),
                s[i as int] == range@,
                place_ids(before) == places(s, i as nat),
                j <= range.follower_node_ids@.len(),
                r@.len() == before.len() + j,
                forall|k: int| 0 <= k < before.len() ==> r@[k] == before[k],
                forall|k: int|
                    0 <= k < j ==> (#[trigger] r@[before.len() + k]).id() == range_places(
                        s[i as int],
                    )[k],
            decreases range.follower_node_ids.len() - j,
        {
            let place = (
                range.start_exclusive,
                (
                    range.end_inclusive,
                    (range.owner_node_id.clone(), range.follower_node_ids[j].clone()),
                ),
            );
            proof {
                assert(place.id() == range_places(s[i as int])[j as int]);
            }
            r.push(place);
            j = j + 1;
        }
        proof {
            assert forall|k: int| 0 <= k < r@.len() implies place_ids(r@)[k] == places(
                s,
                (i + 1) as nat,
            )[k] by {
                if k < before.len() {
                    assert(place_ids(before)[k] == place_ids(r@)[k]);
                } else {
                    let d = k - before.len();
                    assert(r@[before.len() + d].id() == range_places(s[i as int])[d]);
                }
            }
            assert(place_ids(r@) =~= places(s, (i + 1) as nat));
        }
        i = i + 1;
    }
    r
}

/// The places of a list.
pub fn place_set(list: &Vec<PlaceKey>) -> (r: SortedSet<PlaceKey>)
    ensures
        forall|p: Place| #[trigger] r@.contains(p) == place_ids(list@).contains(p),
{
    let ghost s = place_ids(list@);
    let mut r: SortedSet<PlaceKey> = SortedSet::new();
    let mut i: usize = 0;
    while i < list.len()
        invariant
            s == place_ids(list@),
            i <= list@.len(),
            forall|j: int| 0 <= j < i ==> r@.contains(#[trigger] s[j]),
            forall|p: Place| #[trigger] r@.contains(p) ==> s.contains(p),
        decreases list.len() - i,
    {
        proof {
            assert(s[i as int] == list@[i as int].id());
            assert(s.contains(s[i as int]));
        }
        let _ = r.insert(list[i].copy());
        i = i + 1;
    }
    r
}

/// What a durable state is refused for.
pub enum StateFault {
    Topology(TopologyError),
    Invalid(Seq<char>),
    /// Something that is not in the state itself.
    Foreign(RepositoryError),
}

/// Why a durable state is refused.
#[derive(Debug, Eq, PartialEq)]
pub enum RepositoryError {
    /// The store failed; what it said.
    Storage(String),
    Topology(TopologyError),
    Migration(MigrationError),
    InvalidState(String),
    MissingBootstrap,
    BootstrapMismatch,
}

/// What a refusal says.
pub open spec fn repository_error_text(e: RepositoryError) -> Seq<char> {
    match e {
        RepositoryError::Storage(message) => "storage error: "@ + message@,
        RepositoryError::Topology(e) => "invalid topology: "@ + topology_error_text(e),
        RepositoryError::Migration(e) => "invalid migration: "@ + migration_error_text(e),
        RepositoryError::InvalidState(message) => "invalid coordinator state: "@ + message@,
        RepositoryError::MissingBootstrap =>
            "the coordinator store is empty; bootstrap members are required"@,
        RepositoryError::BootstrapMismatch =>
            "configured bootstrap topology differs from durable topology"@,
    }
}

impl RepositoryError {
    /// What the refusal says.
    pub fn message(&self) -> (r: String)
        ensures
            r@ == repository_error_text(*self),
    {
        match self {
            RepositoryError::Storage(message) => crate::text::joined(
                "storage error: ",
                message.as_str(),
            ),
            RepositoryError::Topology(e) => crate::text::joined(
                "invalid topology: ",
                e.message().as_str(),
            ),
            RepositoryError::Migration(e) => crate::text::joined(
                "invalid migration: ",
                e.message().as_str(),
            ),
            RepositoryError::InvalidState(message) => crate::text::joined(
                "invalid coordinator state: ",
                message.as_str(),
            ),
            RepositoryError::MissingBootstrap => owned(
                "the coordinator store is empty; bootstrap members are required",
            ),
            RepositoryError::BootstrapMismatch => owned(
                "configured bootstrap topology differs from durable topology",
            ),
        }
    }
}

/// What a check of a durable state is refused with, if it is.
pub open spec fn fault_of(r: Result<(), RepositoryError>) -> Option<StateFault> {
    match r {
        Ok(_) => None,
        Err(RepositoryError::Topology(e)) => Some(StateFault::Topology(e)),
        Err(RepositoryError::InvalidState(message)) => Some(StateFault::Invalid(message@)),
        Err(e) => Some(StateFault::Foreign(e)),
    }
}

/// A topology that is not valid, as a fault.
pub open spec fn topology_fault(t: TopologySnapshot) -> Option<StateFault> {
    match validation_error(t) {
        Some(e) => Some(StateFault::Topology(e)),
        None => None,
    }
}

/// The target of a change is not committed yet in this phase.
pub open spec fn before_publication(phase: MigrationPhase) -> bool {
    !(phase is Published || phase is CleaningUp || phase is Complete)
}

fn is_before_publication(phase: MigrationPhase) -> (r: bool)
    ensures
        r == before_publication(phase),
{
    !matches!(
        phase,
        MigrationPhase::Published | MigrationPhase::CleaningUp | MigrationPhase::Complete
    )
}

/// A change takes back a published one that is still known.
pub open spec fn has_predecessor(change: ChangeView, superseded: Option<ChangeView>) -> bool {
    change.supersedes_change_id is None || (superseded is Some && superseded->0.change_id
        == change.supersedes_change_id->0 && superseded->0.target_topology.epoch
        == change.base_epoch && superseded->0.phase is Published)
}

/// A change leads from the committed topology to the next, or has just led to it.
pub open spec fn descends(change: ChangeView, committed: SnapshotView) -> bool {
    &&& if before_publication(change.phase) {
        change.base_epoch == committed.epoch && change.target_topology.epoch == next_epoch(
            committed.epoch,
        )
    } else {
        change.target_topology == committed && next_epoch(change.base_epoch) == committed.epoch
    }
    &&& change.target_topology.hash_seed == committed.hash_seed
    &&& change.target_topology.hash_algorithm == committed.hash_algorithm
    &&& change.target_topology.encoding_version == committed.encoding_version
    &&& change.target_topology.virtual_nodes == committed.virtual_nodes
}

/// One more, as far as the counter reaches.
pub open spec fn next_epoch(epoch: u64) -> u64 {
    if epoch == u64::MAX {
        epoch
    } else {
        (epoch + 1) as u64
    }
}

/// What is wrong with the change `c` of a state, whose topologies are `target` and `base`, if
/// anything.
pub open spec fn change_fault(
    v: ClusterView,
    c: ChangeView,
    target: TopologySnapshot,
    base: Option<TopologySnapshot>,
) -> Option<StateFault> {
    if !has_predecessor(c, v.superseded_change) {
        Some(StateFault::Invalid("recovery change has no matching published predecessor"@))
    } else if c.ranges.len() > MAX_MIGRATION_RANGES {
        Some(
            StateFault::Invalid(
                "active change exceeds the "@ + decimal_text(16_384) + " moving-range limit"@,
            ),
        )
    } else if c.replica_obligations.len() > MAX_REPLICA_OBLIGATIONS {
        Some(
            StateFault::Invalid(
                "active change exceeds the "@ + decimal_text(16_384)
                    + " replica-obligation limit"@,
            ),
        )
    } else if topology_fault(target) is Some {
        topology_fault(target)
    } else if !descends(c, v.committed) {
        Some(StateFault::Invalid("active change does not descend from committed topology"@))
    } else {
        match base {
            None => None,
            Some(base) => if topology_fault(base) is Some {
                topology_fault(base)
            } else if base.epoch != c.base_epoch || (before_publication(c.phase) && base@
                != v.committed) {
                Some(StateFault::Invalid("active change has an invalid original topology"@))
            } else {
                None
            },
        }
    }
}

/// An admission that belongs to this state.
pub open spec fn admission_ok(s: ClusterView, i: int) -> bool {
    let a = s.replica_admissions[i];
    &&& a.epoch == s.committed.epoch
    &&& a.process_instance_id.len() > 0
    &&& a.digest.len() > 0
    &&& s.committed.duties().contains(a.place())
    &&& forall|j: int| 0 <= j < i ==> (#[trigger] s.replica_admissions[j]).place() != a.place()
}

/// Some admission is for this place.
pub open spec fn admitted_at(admissions: Seq<AdmissionView>, place: Place) -> bool {
    exists|i: int| 0 <= i < admissions.len() && (#[trigger] admissions[i]).place() == place
}

/// A repair that belongs to this state.
pub open spec fn repair_ok(s: ClusterView, i: int) -> bool {
    let r = s.replica_repairs[i];
    &&& r.epoch == s.committed.epoch
    &&& s.committed.duties().contains(r.place())
    &&& forall|j: int| 0 <= j < i ==> (#[trigger] s.replica_repairs[j]).place() != r.place()
    &&& r.phase is Complete ==> admitted_at(s.replica_admissions, r.place())
}

/// Names that are registered with a process are not empty, nor are the processes.
pub open spec fn instances_ok(m: Map<Seq<char>, Seq<char>>) -> bool {
    forall|k: Seq<char>| #[trigger] m.contains_key(k) ==> k.len() > 0 && m[k].len() > 0
}

/// Confirmed stops name a node and at least one process.
pub open spec fn confirmations_ok(m: Map<Seq<char>, Set<Seq<char>>>) -> bool {
    forall|k: Seq<char>| #[trigger]
        m.contains_key(k) ==> k.len() > 0 && (exists|p: Seq<char>| #[trigger] m[k].contains(p))
            && forall|p: Seq<char>| #[trigger] m[k].contains(p) ==> p.len() > 0
}

/// What is wrong with a durable state, if anything.
pub open spec fn state_fault(s: ClusterState) -> Option<StateFault> {
    fault_in(s.committed, s.active_change, s@)
}

/// What is wrong with a durable state, if anything. `committed` and the topologies of `change`
/// are those that the state holds.
pub open spec fn fault_in(
    committed: TopologySnapshot,
    change: Option<TopologyChange>,
    v: ClusterView,
) -> Option<StateFault> {
    let problem = match change {
        None => None,
        Some(change) => change_fault(
            v,
            v.active_change->0,
            change.target_topology,
            change.base_topology,
        ),
    };
    if topology_fault(committed) is Some {
        topology_fault(committed)
    } else if v.replica_admissions.len() > MAX_REPLICA_OBLIGATIONS || v.replica_repairs.len()
        > MAX_REPLICA_OBLIGATIONS {
        Some(
            StateFault::Invalid(
                "replica metadata exceeds the "@ + decimal_text(16_384) + " task limit"@,
            ),
        )
    } else if problem is Some {
        problem
    } else if !instances_ok(v.process_instances) {
        Some(StateFault::Invalid("registered process identities must not be empty"@))
    } else if v.fenced_nodes.contains(Seq::empty()) {
        Some(StateFault::Invalid("fenced node identities must not be empty"@))
    } else if !confirmations_ok(v.stop_confirmations) {
        Some(
            StateFault::Invalid(
                "durable stop confirmations must identify a node and process instance"@,
            ),
        )
    } else if exists|i: int| 0 <= i < v.replica_admissions.len() && !#[trigger] admission_ok(v, i) {
        Some(StateFault::Invalid("invalid or duplicate replica admission"@))
    } else if exists|i: int| 0 <= i < v.replica_repairs.len() && !#[trigger] repair_ok(v, i) {
        Some(StateFault::Invalid("invalid or duplicate replica repair"@))
    } else {
        None
    }
}

fn invalid(message: &str) -> (r: RepositoryError)
    ensures
        fault_of(Err(r)) == Some(StateFault::Invalid(message@)),
{
    RepositoryError::InvalidState(owned(message))
}

fn check_topology(t: &TopologySnapshot) -> (r: Result<(), RepositoryError>)
    ensures
        fault_of(r) == topology_fault(*t),
{
    match t.validate() {
        Ok(_) => Ok(()),
        Err(e) => Err(RepositoryError::Topology(e)),
    }
}

fn check_instances(m: &SortedMap<String, String>) -> (r: bool)
    ensures
        r == instances_ok(shown(*m)),
{
    m.expose();
    let ghost s = m.sequence();
    let mut i: usize = 0;
    while i < m.len()
        invariant
            s == m.sequence(),
            unique_entries(s),
            i <= s.len(),
            forall|j: int| 0 <= j < i ==> (#[trigger] s[j]).0.len() > 0 && s[j].1@.len() > 0,
        decreases s.len() - i,
    {
        proof {
            lemma_entry(s, i as int);
        }
        if m.key_at(i).as_str().is_empty() || m.value_at(i).as_str().is_empty() {
            proof {
                assert(shown(*m).contains_key(s[i as int].0));
            }
            return false;
        }
        i = i + 1;
    }
    proof {
        assert forall|k: Seq<char>| #[trigger] shown(*m).contains_key(k) implies k.len() > 0 && shown(
            *m,
        )[k].len() > 0 by {
            let j = entry_index(s, k);
            lemma_entry(s, j);
        }
    }
    true
}

/// At least one name, and none of them empty.
pub open spec fn names_ok(names: Set<Seq<char>>) -> bool {
    (exists|p: Seq<char>| #[trigger] names.contains(p)) && forall|p: Seq<char>| #[trigger]
        names.contains(p) ==> p.len() > 0
}

fn check_names(names: &SortedSet<String>) -> (r: bool)
    ensures
        r == names_ok(names@),
{
    names.items.expose();
    let ghost s = names.items.sequence();
    let mut i: usize = 0;
    while i < names.len()
        invariant
            s == names.items.sequence(),
            unique_entries(s),
            i <= s.len(),
            forall|j: int| 0 <= j < i ==> (#[trigger] s[j]).0.len() > 0,
        decreases s.len() - i,
    {
        proof {
            lemma_entry(s, i as int);
        }
        if names.at(i).as_str().is_empty() {
            proof {
                assert(names@.contains(s[i as int].0));
            }
            return false;
        }
        i = i + 1;
    }
    proof {
        assert forall|p: Seq<char>| #[trigger] names@.contains(p) implies p.len() > 0 by {
            let j = entry_index(s, p);
            lemma_entry(s, j);
        }
        if s.len() > 0 {
            lemma_entry(s, 0);
            assert(names@.contains(s[0].0));
        } else {
            assert forall|p: Seq<char>| !(#[trigger] names@.contains(p)) by {
                if names@.contains(p) {
                    let j = entry_index(s, p);
                    lemma_entry(s, j);
                }
            }
        }
    }
    i > 0
}

fn check_confirmations(m: &SortedMap<String, SortedSet<String>>) -> (r: bool)
    ensures
        r == confirmations_ok(shown(*m)),
{
    m.expose();
    let ghost s = m.sequence();
    let ghost v = shown(*m);
    let mut i: usize = 0;
    while i < m.len()
        invariant
            s == m.sequence(),
            v == shown(*m),
            unique_entries(s),
            i <= s.len(),
            forall|j: int| 0 <= j < i ==> (#[trigger] s[j]).0.len() > 0 && names_ok(s[j].1@),
        decreases s.len() - i,
    {
        proof {
            lemma_entry(s, i as int);
            assert(v.contains_key(s[i as int].0));
            assert(v[s[i as int].0] == s[i as int].1@);
        }
        if m.key_at(i).as_str().is_empty() || !check_names(m.value_at(i)) {
            proof {
                assert(!(s[i as int].0.len() > 0 && names_ok(v[s[i as int].0])));
            }
            return false;
        }
        i = i + 1;
    }
    proof {
        assert forall|k: Seq<char>| #[trigger] v.contains_key(k) implies k.len() > 0 && names_ok(
            v[k],
        ) by {
            let j = entry_index(s, k);
            lemma_entry(s, j);
        }
    }
    true
}

impl ClusterState {
    fn check_change(&self, change: &TopologyChange) -> (r: Result<(), RepositoryError>)
        ensures
            fault_of(r) == change_fault(
                self@,
                change@,
                change.target_topology,
                change.base_topology,
            ),
    {
        let known = match &change.supersedes_change_id {
            None => true,
            Some(id) => match &self.superseded_change {
                None => false,
                Some(old) => same_text(old.change_id.as_str(), id.as_str())
                    && old.target_topology.epoch == change.base_epoch && matches!(
                    old.phase,
                    MigrationPhase::Published
                ),
            },
        };
        if !known {
            return Err(invalid("recovery change has no matching published predecessor"));
        }
        if change.ranges.len() > MAX_MIGRATION_RANGES {
            let message = around_number(
                "active change exceeds the ",
                16_384,
                " moving-range limit",
            );
            return Err(RepositoryError::InvalidState(message));
        }
        if change.replica_obligations.len() > MAX_REPLICA_OBLIGATIONS {
            let message = around_number(
                "active change exceeds the ",
                16_384,
                " replica-obligation limit",
            );
            return Err(RepositoryError::InvalidState(message));
        }
        if let Err(e) = check_topology(&change.target_topology) {
            return Err(e);
        }
        let unpublished = is_before_publication(change.phase);
        let committed = &self.committed;
        let target = &change.target_topology;
        let in_line = if unpublished {
            change.base_epoch == committed.epoch && target.epoch == committed.epoch.saturating_add(
                1,
            )
        } else {
            target.same(committed) && change.base_epoch.saturating_add(1) == committed.epoch
        };
        if !in_line || target.hash_seed != committed.hash_seed || !same_text(
            target.hash_algorithm.as_str(),
            committed.hash_algorithm.as_str(),
        ) || target.encoding_version != committed.encoding_version || target.virtual_nodes
            != committed.virtual_nodes {
            return Err(invalid("active change does not descend from committed topology"));
        }
        if let Some(base) = &change.base_topology {
            if let Err(e) = check_topology(base) {
                return Err(e);
            }
            if base.epoch != change.base_epoch || (unpublished && !base.same(committed)) {
                return Err(invalid("active change has an invalid original topology"));
            }
        }
        Ok(())
    }

    fn check_admissions(&self, desired: &SortedSet<PlaceKey>) -> (r: Option<SortedSet<PlaceKey>>)
        requires
            forall|p: Place| #[trigger]
                desired@.contains(p) == self@.committed.duties().contains(p),
        ensures
            r is Some == (forall|i: int|
                0 <= i < self@.replica_admissions.len() ==> #[trigger] admission_ok(self@, i)),
            r matches Some(set) ==> forall|p: Place| #[trigger]
                set@.contains(p) == admitted_at(self@.replica_admissions, p),
    {
        let ghost a = self@.replica_admissions;
        let epoch = self.committed.epoch;
        let mut seen: SortedSet<PlaceKey> = SortedSet::new();
        let mut i: usize = 0;
        while i < self.replica_admissions.len()
            invariant
                a == self@.replica_admissions,
                a.len() == self.replica_admissions@.len(),
                epoch == self@.committed.epoch,
                forall|p: Place| #[trigger]
                    desired@.contains(p) == self@.committed.duties().contains(p),
                i <= a.len(),
                forall|j: int| 0 <= j < i ==> #[trigger] admission_ok(self@, j),
                forall|j: int| 0 <= j < i ==> seen@.contains((#[trigger] a[j]).place()),
                forall|p: Place| #[trigger]
                    seen@.contains(p) ==> exists|j: int|
                        0 <= j < i && (#[trigger] a[j]).place() == p,
            decreases a.len() - i,
        {
            let admission = &self.replica_admissions[i];
            proof {
                assert(a[i as int] == admission@);
            }
            let place = admission.place();
            if admission.epoch != epoch || admission.process_instance_id.as_str().is_empty()
                || admission.digest.as_str().is_empty() || !desired.contains(&place)
                || seen.contains(&place) {
                proof {
                    assert(!admission_ok(self@, i as int));
                }
                return None;
            }
            let ghost before = seen@;
            let _ = seen.insert(place);
            proof {
                assert(admission_ok(self@, i as int)) by {
                    assert forall|j: int| 0 <= j < i implies (#[trigger] a[j]).place()
                        != a[i as int].place() by {
                        assert(before.contains(a[j].place()));
                    }
                }
                assert forall|p: Place| #[trigger] seen@.contains(p) implies exists|j: int|
                    0 <= j < i + 1 && (#[trigger] a[j]).place() == p by {
                    if before.contains(p) {
                        let j = choose|j: int| 0 <= j < i && (#[trigger] a[j]).place() == p;
                        assert(a[j].place() == p);
                    } else {
                        assert(a[i as int].place() == p);
                    }
                }
            }
            i = i + 1;
        }
        Some(seen)
    }

    fn check_repairs(&self, desired: &SortedSet<PlaceKey>, admitted: &SortedSet<PlaceKey>) -> (r: bool)
        requires
            forall|p: Place| #[trigger]
                desired@.contains(p) == self@.committed.duties().contains(p),
            forall|p: Place| #[trigger]
                admitted@.contains(p) == admitted_at(self@.replica_admissions, p),
        ensures
            r == (forall|i: int|
                0 <= i < self@.replica_repairs.len() ==> #[trigger] repair_ok(self@, i)),
    {
        let ghost a = self@.replica_repairs;
        let epoch = self.committed.epoch;
        let mut seen: SortedSet<PlaceKey> = SortedSet::new();
        let mut i: usize = 0;
        while i < self.replica_repairs.len()
            invariant
                a == self@.replica_repairs,
                a.len() == self.replica_repairs@.len(),
                epoch == self@.committed.epoch,
                forall|p: Place| #[trigger]
                    desired@.contains(p) == self@.committed.duties().contains(p),
                forall|p: Place| #[trigger]
                    admitted@.contains(p) == admitted_at(self@.replica_admissions, p),
                i <= a.len(),
                forall|j: int| 0 <= j < i ==> #[trigger] repair_ok(self@, j),
                forall|j: int| 0 <= j < i ==> seen@.contains((#[trigger] a[j]).place()),
                forall|p: Place| #[trigger]
                    seen@.contains(p) ==> exists|j: int|
                        0 <= j < i && (#[trigger] a[j]).place() == p,
            decreases a.len() - i,
        {
            let repair = &self.replica_repairs[i];
            proof {
                assert(a[i as int] == repair@);
            }
            let place = repair.place();
            let complete = matches!(repair.phase, ReplicaRepairPhase::Complete);
            if repair.epoch != epoch || !desired.contains(&place) || seen.contains(&place) || (
            complete && !admitted.contains(&place)) {
                proof {
                    assert(!repair_ok(self@, i as int));
                }
                return false;
            }
            let ghost before = seen@;
            let _ = seen.insert(place);
            proof {
                assert(repair_ok(self@, i as int)) by {
                    assert forall|j: int| 0 <= j < i implies (#[trigger] a[j]).place()
                        != a[i as int].place() by {
                        assert(before.contains(a[j].place()));
                    }
                }
                assert forall|p: Place| #[trigger] seen@.contains(p) implies exists|j: int|
                    0 <= j < i + 1 && (#[trigger] a[j]).place() == p by {
                    if before.contains(p) {
                        let j = choose|j: int| 0 <= j < i && (#[trigger] a[j]).place() == p;
                        assert(a[j].place() == p);
                    } else {
                        assert(a[i as int].place() == p);
                    }
                }
            }
            i = i + 1;
        }
        true
    }

    /// Checks a durable state.
    pub fn validate(&self) -> (r: Result<(), RepositoryError>)
        ensures
            fault_of(r) == state_fault(*self),
    {
        if let Err(e) = check_topology(&self.committed) {
            return Err(e);
        }
        if self.replica_admissions.len() > MAX_REPLICA_OBLIGATIONS || self.replica_repairs.len()
            > MAX_REPLICA_OBLIGATIONS {
            let message = around_number("replica metadata exceeds the ", 16_384, " task limit");
            return Err(RepositoryError::InvalidState(message));
        }
        if let Some(change) = &self.active_change {
            if let Err(e) = self.check_change(change) {
                return Err(e);
            }
        }
        if !check_instances(&self.process_instances) {
            return Err(invalid("registered process identities must not be empty"));
        }
        let nameless = String::new();
        proof {
            assert(nameless@ =~= Seq::empty());
        }
        if self.fenced_nodes.contains(&nameless) {
            return Err(invalid("fenced node identities must not be empty"));
        }
        if !check_confirmations(&self.stop_confirmations) {
            return Err(
                invalid("durable stop confirmations must identify a node and process instance"),
            );
        }
        proof {
            law_valid_topologies_are_canonical(self.committed);
        }
        let ranges = match self.committed.derived_ranges() {
            Ok(ranges) => ranges,
            Err(_) => Vec::new(),
        };
        let desired = place_set(&list_duties(&ranges));
        let admitted = match self.check_admissions(&desired) {
            Some(admitted) => admitted,
            None => {
                return Err(invalid("invalid or duplicate replica admission"));
            },
        };
        if !self.check_repairs(&desired, &admitted) {
            return Err(invalid("invalid or duplicate replica repair"));
        }
        Ok(())
    }
}

} // verus!
