//! Where a coordinator begins: from what it stored, or from the members it is given.
use crate::cluster::{
    fault_in, fault_of, state_fault, ClusterState, ClusterView, RepositoryError, StateFault,
};
use crate::migration::{ChangeView, MoveView, RangeMigration, TopologyChange};
use crate::ordmap::{shown, SortedMap};
use crate::sets::SortedSet;
use crate::text::{joined, same_text, texts};
use crate::topology::{first_member, SnapshotView, TopologySnapshot};
use crate::views::views;
use vstd::prelude::*;

verus! {

/// A range with the endpoints that older states left out.
pub open spec fn filled(r: MoveView, committed: SnapshotView, target: SnapshotView) -> MoveView {
    MoveView {
        source_endpoint: if r.source_endpoint.len() == 0 {
            committed.members[first_member(committed.members, r.source_node_id)].endpoint
        } else {
            r.source_endpoint
        },
        destination_endpoint: if r.destination_endpoint.len() == 0 {
            target.members[first_member(target.members, r.destination_node_id)].endpoint
        } else {
            r.destination_endpoint
        },
        ..r
    }
}

/// What keeps the endpoints of a range from being filled in, if anything does.
pub open spec fn fill_fault(r: MoveView, committed: SnapshotView, target: SnapshotView) -> Option<
    Seq<char>,
> {
    if r.source_endpoint.len() == 0 && !committed.is_member(r.source_node_id) {
        Some("missing source member "@ + r.source_node_id + " for persisted range"@)
    } else if r.destination_endpoint.len() == 0 && !target.is_member(r.destination_node_id) {
        Some("missing destination member "@ + r.destination_node_id + " for persisted range"@)
    } else {
        None
    }
}

/// A state is refused with this message.
pub open spec fn says<T>(r: Result<T, RepositoryError>, message: Seq<char>) -> bool {
    r matches Err(RepositoryError::InvalidState(m)) && m@ == message
}

/// The first fault from range `i` on.
pub open spec fn first_fill_fault(
    ranges: Seq<MoveView>,
    committed: SnapshotView,
    target: SnapshotView,
    i: nat,
) -> Option<Seq<char>>
    decreases ranges.len() - i,
{
    if i >= ranges.len() {
        None
    } else if fill_fault(ranges[i as int], committed, target) is Some {
        fill_fault(ranges[i as int], committed, target)
    } else {
        first_fill_fault(ranges, committed, target, i + 1)
    }
}

/// Ranges with the endpoints that older states left out.
pub open spec fn all_filled(
    ranges: Seq<MoveView>,
    committed: SnapshotView,
    target: SnapshotView,
) -> Seq<MoveView> {
    Seq::new(ranges.len(), |i: int| filled(ranges[i], committed, target))
}

/// The process of a source as the first of its ranges from `i` on names it.
pub open spec fn source_instance(ranges: Seq<MoveView>, node: Seq<char>, i: nat) -> Seq<char>
    decreases ranges.len() - i,
{
    if i >= ranges.len() {
        Seq::empty()
    } else if ranges[i as int].source_node_id == node {
        ranges[i as int].source_process_instance_id
    } else {
        source_instance(ranges, node, i + 1)
    }
}

/// Confirmed stops with one more.
pub open spec fn with_confirmation(
    m: Map<Seq<char>, Set<Seq<char>>>,
    node: Seq<char>,
    instance: Seq<char>,
) -> Map<Seq<char>, Set<Seq<char>>> {
    m.insert(
        node,
        (if m.contains_key(node) {
            m[node]
        } else {
            Set::empty()
        }).insert(instance),
    )
}

/// Confirmed stops with those that the first `n` prepared nodes of a change imply.
pub open spec fn with_prepared(
    m: Map<Seq<char>, Set<Seq<char>>>,
    ranges: Seq<MoveView>,
    prepared: Seq<Seq<char>>,
    n: nat,
) -> Map<Seq<char>, Set<Seq<char>>>
    decreases n,
{
    if n == 0 {
        m
    } else {
        let rest = with_prepared(m, ranges, prepared, (n - 1) as nat);
        let instance = source_instance(ranges, prepared[n - 1], 0);
        if instance.len() > 0 {
            with_confirmation(rest, prepared[n - 1], instance)
        } else {
            rest
        }
    }
}

impl ClusterView {
    /// What keeps an older state from being brought up to date, if anything does.
    pub open spec fn upgrade_fault(self) -> Option<Seq<char>> {
        match self.active_change {
            None => None,
            Some(change) => first_fill_fault(
                change.ranges,
                self.committed,
                change.target_topology,
                0,
            ),
        }
    }

    /// An older state brought up to date.
    pub open spec fn upgraded(self) -> ClusterView {
        match self.active_change {
            None => self,
            Some(change) => {
                let ranges = all_filled(change.ranges, self.committed, change.target_topology);
                ClusterView {
                    active_change: Some(ChangeView { ranges: ranges, ..change }),
                    stop_confirmations: with_prepared(
                        self.stop_confirmations,
                        ranges,
                        change.stop_prepared_node_ids,
                        change.stop_prepared_node_ids.len(),
                    ),
                    ..self
                }
            },
        }
    }
}

fn instance_of_source(ranges: &Vec<RangeMigration>, node: &str) -> (r: String)
    ensures
        r@ == source_instance(views(ranges@), node@, 0),
{
    let ghost s = views(ranges@);
    let mut i: usize = 0;
    while i < ranges.len()
        invariant
            s == views(ranges@),
            i <= ranges@.len(),
            source_instance(s, node@, 0) == source_instance(s, node@, i as nat),
        decreases ranges.len() - i,
    {
        proof {
            assert(s[i as int] == ranges@[i as int]@);
        }
        if same_text(ranges[i].source_node_id.as_str(), node) {
            return ranges[i].source_process_instance_id.clone();
        }
        i = i + 1;
    }
    let none = String::new();
    proof {
        assert(none@ =~= Seq::empty());
    }
    none
}

/// Adds a process to those of its node that may stop.
pub fn confirm_stop(
    m: &mut SortedMap<String, SortedSet<String>>,
    node: &String,
    instance: &String,
)
    ensures
        shown(*final(m)) == with_confirmation(shown(*old(m)), node@, instance@),
{
    let ghost before = shown(*m);
    if m.contains(node) {
        if let Some(set) = m.get_mut(node) {
            let _ = set.insert(instance.clone());
        }
    } else {
        let mut set: SortedSet<String> = SortedSet::new();
        let _ = set.insert(instance.clone());
        let _ = m.insert(node.clone(), set);
    }
    proof {
        assert(shown(*m) =~= with_confirmation(before, node@, instance@));
    }
}

fn fill_range(range: &RangeMigration, committed: &TopologySnapshot, target: &TopologySnapshot) -> (r: Result<
    RangeMigration,
    RepositoryError,
>)
    ensures
        match fill_fault(range@, committed@, target@) {
            Some(message) => says(r, message),
            None => r is Ok && r->Ok_0@ == filled(range@, committed@, target@),
        },
{
    let mut filled_in = range.clone();
    if range.source_endpoint.as_str().is_empty() {
        match committed.member(range.source_node_id.as_str()) {
            Some(member) => {
                filled_in.source_endpoint = member.endpoint.clone();
            },
            None => {
                let before = joined("missing source member ", range.source_node_id.as_str());
                let message = joined(before.as_str(), " for persisted range");
                return Err(RepositoryError::InvalidState(message));
            },
        }
    }
    if range.destination_endpoint.as_str().is_empty() {
        match target.member(range.destination_node_id.as_str()) {
            Some(member) => {
                filled_in.destination_endpoint = member.endpoint.clone();
            },
            None => {
                let before = joined(
                    "missing destination member ",
                    range.destination_node_id.as_str(),
                );
                let message = joined(before.as_str(), " for persisted range");
                return Err(RepositoryError::InvalidState(message));
            },
        }
    }
    proof {
        if range@.source_endpoint.len() == 0 {
            crate::migration::lemma_member_bounds(committed@, range@.source_node_id);
        }
        if range@.destination_endpoint.len() == 0 {
            crate::migration::lemma_member_bounds(target@, range@.destination_node_id);
        }
        assert(filled_in@ =~= filled(range@, committed@, target@));
    }
    Ok(filled_in)
}

fn fill_ranges(
    ranges: &Vec<RangeMigration>,
    committed: &TopologySnapshot,
    target: &TopologySnapshot,
) -> (r: Result<Vec<RangeMigration>, RepositoryError>)
    ensures
        match first_fill_fault(views(ranges@), committed@, target@, 0) {
            Some(message) => says(r, message),
            None => r is Ok && views(r->Ok_0@) == all_filled(
                views(ranges@),
                committed@,
                target@,
            ),
        },
{
    let ghost s = views(ranges@);
    let mut r: Vec<RangeMigration> = Vec::new();
    let mut i: usize = 0;
    while i < ranges.len()
        invariant
            s == views(ranges@),
            i <= ranges@.len(),
            first_fill_fault(s, committed@, target@, 0) == first_fill_fault(
                s,
                committed@,
                target@,
                i as nat,
            ),
            r@.len() == i,
            forall|j: int|
                0 <= j < i ==> (#[trigger] r@[j])@ == filled(s[j], committed@, target@),
        decreases ranges.len() - i,
    {
        proof {
            assert(s[i as int] == ranges@[i as int]@);
        }
        match fill_range(&ranges[i], committed, target) {
            Ok(range) => {
                r.push(range);
            },
            Err(e) => {
                return Err(e);
            },
        }
        i = i + 1;
    }
    proof {
        assert(views(r@) =~= all_filled(s, committed@, target@));
    }
    Ok(r)
}

/// Two changes have the same topologies.
pub open spec fn same_topologies(a: Option<TopologyChange>, b: Option<TopologyChange>) -> bool {
    match (a, b) {
        (None, None) => true,
        (Some(a), Some(b)) => a.target_topology == b.target_topology && a.base_topology
            == b.base_topology,
        _ => false,
    }
}

/// Brings an older state up to date.
pub fn upgrade_persisted_state(state: ClusterState) -> (r: Result<ClusterState, RepositoryError>)
    ensures
        match state@.upgrade_fault() {
            Some(message) => says(r, message),
            None => r is Ok && r->Ok_0@ == state@.upgraded() && r->Ok_0.committed
                == state.committed && same_topologies(r->Ok_0.active_change, state.active_change),
        },
{
    let ghost s0 = state@;
    let mut state = state;
    let mut change = match state.active_change {
        Some(change) => change,
        None => {
            state.active_change = None;
            return Ok(state);
        },
    };
    let ghost c0 = change@;
    let ranges = match fill_ranges(&change.ranges, &state.committed, &change.target_topology) {
        Ok(ranges) => ranges,
        Err(e) => {
            return Err(e);
        },
    };
    let ghost f = views(ranges@);
    let ghost prepared = c0.stop_prepared_node_ids;
    let mut confirmations = state.stop_confirmations;
    let ghost m0 = shown(confirmations);
    let mut i: usize = 0;
    while i < change.stop_prepared_node_ids.len()
        invariant
            f == views(ranges@),
            prepared == texts(change.stop_prepared_node_ids@),
            i <= prepared.len(),
            shown(confirmations) == with_prepared(m0, f, prepared, i as nat),
        decreases change.stop_prepared_node_ids.len() - i,
    {
        let node = &change.stop_prepared_node_ids[i];
        proof {
            assert(prepared[i as int] == node@);
        }
        let instance = instance_of_source(&ranges, node.as_str());
        if !instance.as_str().is_empty() {
            confirm_stop(&mut confirmations, node, &instance);
        }
        i = i + 1;
    }
    change.ranges = ranges;
    state.stop_confirmations = confirmations;
    state.active_change = Some(change);
    proof {
        assert(state@ =~= s0.upgraded());
    }
    Ok(state)
}

/// A state in which nothing has happened yet.
pub open spec fn first_state(committed: SnapshotView) -> ClusterView {
    ClusterView {
        committed: committed,
        active_change: None,
        superseded_change: None,
        process_instances: Map::empty(),
        stop_confirmations: Map::empty(),
        replica_admissions: Seq::empty(),
        replica_repairs: Seq::empty(),
        fenced_nodes: Set::empty(),
        recovery_block_reason: Seq::empty(),
    }
}

impl ClusterState {
    /// A state in which nothing has happened yet.
    pub fn new(committed: TopologySnapshot) -> (r: Self)
        ensures
            r@ == first_state(committed@),
            r.committed == committed,
    {
        let r = ClusterState {
            committed: committed,
            active_change: None,
            superseded_change: None,
            process_instances: SortedMap::new(),
            stop_confirmations: SortedMap::new(),
            replica_admissions: Vec::new(),
            replica_repairs: Vec::new(),
            fenced_nodes: SortedSet::new(),
            recovery_block_reason: String::new(),
        };
        proof {
            assert(r@.process_instances =~= Map::empty());
            assert(r@.stop_confirmations =~= Map::empty());
            assert(r@.replica_admissions =~= Seq::empty());
            assert(r@.replica_repairs =~= Seq::empty());
            assert(r@ =~= first_state(committed@));
        }
        r
    }
}

/// What a state is refused for once it was brought in line with its topology, if anything.
/// `committed` and the topologies of `change` are those that the state holds.
pub open spec fn settled_fault(
    committed: TopologySnapshot,
    change: Option<TopologyChange>,
    v: ClusterView,
) -> Option<StateFault> {
    if v.misplaced() is Some {
        v.misplaced()
    } else {
        fault_in(committed, change, v.reconciled())
    }
}

/// What a stored state is refused for, if anything.
pub open spec fn restored_fault(s: ClusterState) -> Option<StateFault> {
    match s@.upgrade_fault() {
        Some(message) => Some(StateFault::Invalid(message)),
        None => settled_fault(s.committed, s.active_change, s@.upgraded()),
    }
}

/// The refusal of a result, if it is refused.
pub open spec fn fault_found<T>(r: Result<T, RepositoryError>) -> Option<StateFault> {
    match r {
        Ok(_) => None,
        Err(e) => fault_of(Err(e)),
    }
}

/// Brings a state in line with its topology and checks it.
pub fn settle_state(state: ClusterState) -> (r: Result<ClusterState, RepositoryError>)
    ensures
        fault_found(r) == settled_fault(state.committed, state.active_change, state@),
        r matches Ok(s) ==> s@ == state@.reconciled() && state_fault(s) is None,
{
    let mut state = state;
    if let Err(e) = state.reconcile_replica_repairs() {
        return Err(e);
    }
    match state.validate() {
        Ok(_) => Ok(state),
        Err(e) => Err(e),
    }
}

/// Brings a stored state up to date and in line with its topology, and checks it.
pub fn restore_state(stored: ClusterState) -> (r: Result<ClusterState, RepositoryError>)
    ensures
        fault_found(r) == restored_fault(stored),
        r matches Ok(s) ==> s@ == stored@.upgraded().reconciled() && state_fault(s) is None,
{
    match upgrade_persisted_state(stored) {
        Ok(state) => settle_state(state),
        Err(e) => Err(e),
    }
}

/// What a coordinator begins with.
pub enum Startup {
    /// What was stored.
    Restored(ClusterState),
    /// A first state, which is to be stored.
    Fresh(ClusterState),
}

/// Chooses what a coordinator begins with.
pub fn choose_startup(stored: Option<ClusterState>, bootstrap: Option<TopologySnapshot>) -> (r: Result<
    Startup,
    RepositoryError,
>)
    ensures
        match (stored, bootstrap) {
            (Some(state), Some(t)) => if state@.committed == t@ {
                r == Ok::<Startup, RepositoryError>(Startup::Restored(state))
            } else {
                r == Err::<Startup, RepositoryError>(RepositoryError::BootstrapMismatch)
            },
            (Some(state), None) => r == Ok::<Startup, RepositoryError>(Startup::Restored(state)),
            (None, None) => r == Err::<Startup, RepositoryError>(
                RepositoryError::MissingBootstrap,
            ),
            (None, Some(t)) => {
                let first = first_state(t@);
                if first.misplaced() is Some {
                    r is Err && fault_of(Err(r->Err_0)) == first.misplaced()
                } else {
                    r matches Ok(Startup::Fresh(s)) && s@ == first.reconciled()
                }
            },
        },
{
    match stored {
        Some(state) => {
            let mismatch = match &bootstrap {
                Some(t) => !state.committed.same(t),
                None => false,
            };
            if mismatch {
                Err(RepositoryError::BootstrapMismatch)
            } else {
                Ok(Startup::Restored(state))
            }
        },
        None => match bootstrap {
            None => Err(RepositoryError::MissingBootstrap),
            Some(t) => {
                let mut state = ClusterState::new(t);
                match state.reconcile_replica_repairs() {
                    Ok(_) => Ok(Startup::Fresh(state)),
                    Err(e) => Err(e),
                }
            },
        },
    }
}

/// Where a coordinator keeps its state.
pub trait CoordinatorRepository: Send + Sync {
    fn load_state(&self) -> Result<Option<ClusterState>, RepositoryError>;

    fn store_state(&self, state: &ClusterState) -> Result<(), RepositoryError>;
}

/// The first state was handed to the repository, and what is returned is what it answered.
pub open spec fn stored_first<R: CoordinatorRepository>(
    repository: &R,
    first: ClusterView,
    r: Result<ClusterState, RepositoryError>,
) -> bool {
    exists|fresh: ClusterState, answer: Result<(), RepositoryError>|
        #![trigger call_ensures(R::store_state, (repository, &fresh), answer)]
        fresh@ == first && call_ensures(R::store_state, (repository, &fresh), answer) && match answer {
            Ok(_) => r == Ok::<ClusterState, RepositoryError>(fresh),
            Err(e) => r == Err::<ClusterState, RepositoryError>(e),
        }
}

/// What a coordinator begins with, given what its repository loaded.
pub open spec fn begins<R: CoordinatorRepository>(
    repository: &R,
    loaded: Result<Option<ClusterState>, RepositoryError>,
    bootstrap: Option<TopologySnapshot>,
    r: Result<ClusterState, RepositoryError>,
) -> bool {
    match (loaded, bootstrap) {
        (Err(e), _) => r == Err::<ClusterState, RepositoryError>(e),
        (Ok(Some(state)), Some(t)) => if state@.committed == t@ {
            r == Ok::<ClusterState, RepositoryError>(state)
        } else {
            r == Err::<ClusterState, RepositoryError>(RepositoryError::BootstrapMismatch)
        },
        (Ok(Some(state)), None) => r == Ok::<ClusterState, RepositoryError>(state),
        (Ok(None), None) => r == Err::<ClusterState, RepositoryError>(
            RepositoryError::MissingBootstrap,
        ),
        (Ok(None), Some(t)) => if first_state(t@).misplaced() is Some {
            fault_found(r) == first_state(t@).misplaced()
        } else {
            stored_first(repository, first_state(t@).reconciled(), r)
        },
    }
}

/// Loads what a coordinator begins with, and stores it where it is new.
pub fn load_or_initialize<R: CoordinatorRepository>(
    repository: &R,
    bootstrap: Option<TopologySnapshot>,
) -> (r: Result<ClusterState, RepositoryError>)
    ensures
        exists|loaded: Result<Option<ClusterState>, RepositoryError>|
            #![trigger call_ensures(R::load_state, (repository,), loaded)]
            call_ensures(R::load_state, (repository,), loaded) && begins(
                repository,
                loaded,
                bootstrap,
                r,
            ),
{
    let loaded = repository.load_state();
    let ghost given = loaded;
    assert(call_ensures(R::load_state, (repository,), given));
    let stored = match loaded {
        Ok(stored) => stored,
        Err(e) => {
            return Err(e);
        },
    };
    match choose_startup(stored, bootstrap) {
        Ok(Startup::Restored(state)) => Ok(state),
        Ok(Startup::Fresh(state)) => match repository.store_state(&state) {
            Ok(_) => Ok(state),
            Err(e) => Err(e),
        },
        Err(e) => Err(e),
    }
}

} // verus!
