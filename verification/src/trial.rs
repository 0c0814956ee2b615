//! What is observed in a trial run, and what it must come to.
use crate::bytes::{be64, put_be64};
use crate::client::ClientError;
use crate::errors::ErrorCode;
use crate::experiment::{deterministic_value, trial_value, ExperimentMode};
use crate::limits::DEFAULT_MAX_VALUE_BYTES;
use crate::migration::MigrationPhase;
use crate::order::same_bytes;
use crate::recovery::{name_phase, phase_name};
use crate::status::{RangeReplicaStatus, RangeStatusView};
use crate::text::{around_number, decimal_text, joined, owned, same_text};
use crate::topology::{SnapshotView, TopologySnapshot, WriteAckPolicy};
use crate::topology_laws::law_every_token_has_a_member_owner;
use crate::views::views;
use vstd::prelude::*;
use vstd::relations::{sorted_by, total_ordering};
use vstd::seq_lib::lemma_sorted_unique;

verus! {

/// Numbers in ascending order.
pub open spec fn number_order() -> spec_fn(u64, u64) -> bool {
    |a: u64, b: u64| a <= b
}

/// Sorts numbers.
pub fn sort_numbers(list: &Vec<u64>) -> (r: Vec<u64>)
    ensures
        r@ == list@.sort_by(number_order()),
        r@.len() == list@.len(),
{
    broadcast use {vstd::seq_lib::group_to_multiset_ensures, vstd::multiset::group_multiset_axioms};

    let mut r: Vec<u64> = Vec::new();
    let mut n: usize = 0;
    proof {
        assert(r@ =~= list@.subrange(0, 0));
        assert(total_ordering(number_order()));
    }
    while n < list.len()
        invariant
            n <= list.len(),
            r@.len() == n,
            total_ordering(number_order()),
            sorted_by(r@, number_order()),
            r@.to_multiset() == list@.subrange(0, n as int).to_multiset(),
        decreases list.len() - n,
    {
        broadcast use {
            vstd::seq_lib::group_to_multiset_ensures,
            vstd::multiset::group_multiset_axioms,
        };

        let ghost held = r@;
        let x = list[n];
        let mut at: usize = r.len();
        while at > 0 && r[at - 1] > x
            invariant
                at <= r.len(),
                held == r@,
                forall|j: int| at <= j < held.len() ==> x <= #[trigger] held[j],
            decreases at,
        {
            at = at - 1;
        }
        proof {
            assert forall|j: int| 0 <= j < at implies #[trigger] held[j] <= x by {
                if j < at - 1 {
                    assert(number_order()(held[j], held[at - 1]));
                }
            }
        }
        r.insert(at, x);
        proof {
            let now = r@;
            assert(now =~= held.insert(at as int, x));
            assert(sorted_by(now, number_order())) by {
                assert forall|i: int, j: int| 0 <= i < j < now.len() implies #[trigger] number_order()(
                    now[i],
                    now[j],
                ) by {
                    let i2 = if i < at {
                        i
                    } else {
                        i - 1
                    };
                    let j2 = if j < at {
                        j
                    } else {
                        j - 1
                    };
                    if i != at && j != at {
                        assert(number_order()(held[i2], held[j2]));
                    }
                }
            }
            assert(now.remove(at as int) =~= held);
            assert(now[at as int] == x);
            assert(held.to_multiset() =~= now.to_multiset().remove(x));
            assert(now.contains(x));
            assert(now.to_multiset() =~= held.to_multiset().insert(x));
            assert(list@.subrange(0, n + 1) =~= list@.subrange(0, n as int).push(x));
        }
        n = n + 1;
    }
    proof {
        assert(list@.subrange(0, list@.len() as int) =~= list@);
        list@.lemma_sort_by_ensures(number_order());
        lemma_sorted_unique(r@, list@.sort_by(number_order()), number_order());
    }
    r
}

/// How long operations took.
#[derive(Clone, Copy, Debug, Eq, PartialEq, Structural)]
pub struct LatencySummary {
    pub samples: usize,
    pub p50: u64,
    pub p95: u64,
    pub p99: u64,
    pub max: u64,
}

/// The sample below which so many percent lie.
pub open spec fn percentile(sorted: Seq<u64>, percent: nat) -> u64 {
    sorted[((sorted.len() - 1) * percent / 100) as int]
}

/// Sums up how long operations took.
pub fn latency_summary(samples: &Vec<u64>) -> (r: LatencySummary)
    requires
        0 < samples@.len() <= usize::MAX / 100,
    ensures
        ({
            let sorted = samples@.sort_by(number_order());
            r == (LatencySummary {
                samples: samples@.len() as usize,
                p50: percentile(sorted, 50),
                p95: percentile(sorted, 95),
                p99: percentile(sorted, 99),
                max: sorted.last(),
            })
        }),
{
    let sorted = sort_numbers(samples);
    let last = sorted.len() - 1;
    LatencySummary {
        samples: sorted.len(),
        p50: sorted[last * 50 / 100],
        p95: sorted[last * 95 / 100],
        p99: sorted[last * 99 / 100],
        max: sorted[last],
    }
}

/// A range has all its copies, and all of them are healthy.
pub open spec fn fully_copied(range: RangeStatusView, desired_rf: u32) -> bool {
    &&& range.live_rf == desired_rf
    &&& !range.repairing
    &&& forall|i: int| 0 <= i < range.followers.len() ==> (#[trigger] range.followers[i]).healthy
}

/// Every range has all its copies.
pub open spec fn all_copied(ranges: Seq<RangeStatusView>, desired_rf: u32) -> bool {
    ranges.len() > 0 && forall|i: int|
        0 <= i < ranges.len() ==> fully_copied(#[trigger] ranges[i], desired_rf)
}

fn is_fully_copied(range: &RangeReplicaStatus, desired_rf: u32) -> (r: bool)
    ensures
        r == fully_copied(range@, desired_rf),
{
    if range.live_rf != desired_rf || range.repairing {
        return false;
    }
    let ghost s = range@.followers;
    let mut i: usize = 0;
    while i < range.followers.len()
        invariant
            s == views(range.followers@),
            s == range@.followers,
            i <= range.followers@.len(),
            forall|j: int| 0 <= j < i ==> (#[trigger] s[j]).healthy,
        decreases range.followers.len() - i,
    {
        proof {
            assert(s[i as int] == range.followers@[i as int]@);
        }
        if !range.followers[i].healthy {
            return false;
        }
        i = i + 1;
    }
    true
}

/// Tells whether every range has all its copies.
pub fn has_full_rf(ranges: &Vec<RangeReplicaStatus>, desired_rf: u32) -> (r: bool)
    ensures
        r == all_copied(views(ranges@), desired_rf),
{
    let ghost s = views(ranges@);
    let mut i: usize = 0;
    while i < ranges.len()
        invariant
            s == views(ranges@),
            i <= ranges@.len(),
            forall|j: int| 0 <= j < i ==> fully_copied(#[trigger] s[j], desired_rf),
        decreases ranges.len() - i,
    {
        proof {
            assert(s[i as int] == ranges@[i as int]@);
        }
        if !is_fully_copied(&ranges[i], desired_rf) {
            return false;
        }
        i = i + 1;
    }
    ranges.len() > 0
}

/// Data is being moved in this phase.
pub open spec fn moves_data(phase: MigrationPhase) -> bool {
    phase is CopyingSnapshot || phase is ReplayingChangelog || phase is PausingWrites
        || phase is Verifying || phase is ReadyToPublish
}

/// Data has been moved, or will not be, in this phase.
pub open spec fn past_moving(phase: MigrationPhase) -> bool {
    phase is Published || phase is CleaningUp || phase is Complete || phase is Aborting
        || phase is Aborted
}

/// What is made of the phase of a change.
#[derive(Debug, Eq, PartialEq)]
pub enum Watch {
    /// It is as it should be.
    Observed,
    /// Look again later.
    Wait,
    /// It is too late; what is said.
    TooLate(String),
}

/// How often the phase of a change is looked at before giving up.
pub const WATCH_LOOKS: u32 = 2_000;

/// What is made of the phase of a change before keys are written; nothing where it is as it
/// should be, `Some(None)` where to look again, and else what is said.
pub open spec fn activity_outcome(phase: Option<MigrationPhase>, looks: u32) -> Option<
    Option<Seq<char>>,
> {
    if phase is Some && moves_data(phase->0) {
        None
    } else if phase is Some && past_moving(phase->0) {
        Some(
            Some(
                "migration reached "@ + phase_name(phase->0) + " before concurrent writes began"@,
            ),
        )
    } else if looks >= WATCH_LOOKS {
        Some(Some("migration did not leave its planned phase"@))
    } else {
        Some(None)
    }
}

/// What is made of the phase of a change while keys are written.
pub open spec fn overlap_outcome(
    phase: Option<MigrationPhase>,
    mutations: u64,
    writer_finished: bool,
    looks: u32,
) -> Option<Option<Seq<char>>> {
    if phase is Some && moves_data(phase->0) && mutations > 0 {
        None
    } else if phase is Some && past_moving(phase->0) {
        Some(
            Some(
                "migration reached "@ + phase_name(phase->0)
                    + " before any concurrent mutation completed"@,
            ),
        )
    } else if writer_finished && mutations == 0 {
        Some(Some("concurrent mutator finished without a successful mutation"@))
    } else if looks >= WATCH_LOOKS {
        Some(Some("no successful mutation overlapped the active migration"@))
    } else {
        Some(None)
    }
}

impl Watch {
    /// The outcome that this stands for.
    pub open spec fn outcome(self) -> Option<Option<Seq<char>>> {
        match self {
            Watch::Observed => None,
            Watch::Wait => Some(None),
            Watch::TooLate(message) => Some(Some(message@)),
        }
    }
}

fn is_moving(phase: MigrationPhase) -> (r: bool)
    ensures
        r == moves_data(phase),
{
    match phase {
        MigrationPhase::CopyingSnapshot
        | MigrationPhase::ReplayingChangelog
        | MigrationPhase::PausingWrites
        | MigrationPhase::Verifying
        | MigrationPhase::ReadyToPublish => true,
        _ => false,
    }
}

fn is_past_moving(phase: MigrationPhase) -> (r: bool)
    ensures
        r == past_moving(phase),
{
    match phase {
        MigrationPhase::Published
        | MigrationPhase::CleaningUp
        | MigrationPhase::Complete
        | MigrationPhase::Aborting
        | MigrationPhase::Aborted => true,
        _ => false,
    }
}

/// Decides whether data is being moved, at the given look.
pub fn wait_for_migration_activity(phase: Option<MigrationPhase>, looks: u32) -> (r: Watch)
    ensures
        r.outcome() == activity_outcome(phase, looks),
{
    if let Some(phase) = phase {
        if is_moving(phase) {
            return Watch::Observed;
        }
        if is_past_moving(phase) {
            let before = joined("migration reached ", name_phase(phase).as_str());
            return Watch::TooLate(joined(before.as_str(), " before concurrent writes began"));
        }
    }
    if looks >= WATCH_LOOKS {
        return Watch::TooLate(owned("migration did not leave its planned phase"));
    }
    Watch::Wait
}

/// Decides whether a mutation has succeeded while data was being moved, at the given look.
pub fn wait_for_mutation_overlap(
    phase: Option<MigrationPhase>,
    mutations: u64,
    writer_finished: bool,
    looks: u32,
) -> (r: Watch)
    ensures
        r.outcome() == overlap_outcome(phase, mutations, writer_finished, looks),
{
    if let Some(phase) = phase {
        if is_moving(phase) && mutations > 0 {
            return Watch::Observed;
        }
        if is_past_moving(phase) {
            let before = joined("migration reached ", name_phase(phase).as_str());
            return Watch::TooLate(
                joined(before.as_str(), " before any concurrent mutation completed"),
            );
        }
    }
    if writer_finished && mutations == 0 {
        return Watch::TooLate(
            owned("concurrent mutator finished without a successful mutation"),
        );
    }
    if looks >= WATCH_LOOKS {
        return Watch::TooLate(owned("no successful mutation overlapped the active migration"));
    }
    Watch::Wait
}

/// Checks that a change has completed.
pub fn check_migration_end(phase: MigrationPhase) -> (r: Result<(), String>)
    ensures
        r is Ok == (phase is Complete),
        r matches Err(message) ==> message@ == "migration ended in "@ + phase_name(phase),
{
    match phase {
        MigrationPhase::Complete => Ok(()),
        _ => Err(joined("migration ended in ", name_phase(phase).as_str())),
    }
}

/// Checks that the way back moves the keys that the way there moved.
pub fn check_reverse_cohort(moving: &Vec<u64>, all: &Vec<u64>) -> (r: Result<(), String>)
    ensures
        r is Ok == (moving@ == all@),
        r matches Err(message) ==> message@ == "reverse migration changed the moving-key cohort"@,
{
    if moving.len() != all.len() {
        return Err(owned("reverse migration changed the moving-key cohort"));
    }
    let mut i: usize = 0;
    while i < moving.len()
        invariant
            i <= moving@.len(),
            moving@.len() == all@.len(),
            forall|j: int| 0 <= j < i ==> moving@[j] == #[trigger] all@[j],
        decreases moving.len() - i,
    {
        if moving[i] != all[i] {
            return Err(owned("reverse migration changed the moving-key cohort"));
        }
        i = i + 1;
    }
    proof {
        assert(moving@ =~= all@);
    }
    Ok(())
}

/// In which round each key was last written; nothing where it was deleted.
pub open spec fn rounds_after(rounds: Seq<Option<u64>>, keys: Seq<u64>, round: Option<u64>, n: nat) -> Seq<
    Option<u64>,
>
    decreases n,
{
    if n == 0 {
        rounds
    } else {
        rounds_after(rounds, keys, round, (n - 1) as nat).update(keys[n - 1] as int, round)
    }
}

/// Notes in which round keys were written, or that they were deleted.
pub fn note_rounds(rounds: &mut Vec<Option<u64>>, keys: &Vec<u64>, round: Option<u64>)
    requires
        forall|i: int| 0 <= i < keys@.len() ==> (#[trigger] keys@[i]) < old(rounds)@.len(),
    ensures
        final(rounds)@ == rounds_after(old(rounds)@, keys@, round, keys@.len()),
        final(rounds)@.len() == old(rounds)@.len(),
{
    let ghost before = rounds@;
    let mut i: usize = 0;
    while i < keys.len()
        invariant
            i <= keys@.len(),
            forall|j: int| 0 <= j < keys@.len() ==> (#[trigger] keys@[j]) < before.len(),
            rounds@.len() == before.len(),
            rounds@ == rounds_after(before, keys@, round, i as nat),
        decreases keys.len() - i,
    {
        let key = keys[i];
        assert(key < before.len());
        rounds.set(key as usize, round);
        i = i + 1;
    }
}

/// What came of reading a key.
pub enum ReadResult {
    Value(Vec<u8>),
    Failed(ClientError),
}

/// A read says that there is no value.
pub open spec fn finds_nothing(error: ClientError) -> bool {
    match error {
        ClientError::Operation(failure) => failure.code is NotFound,
        _ => false,
    }
}

fn is_not_found(error: &ClientError) -> (r: bool)
    ensures
        r == finds_nothing(*error),
{
    match error {
        ClientError::Operation(failure) => failure.code == ErrorCode::NotFound,
        _ => false,
    }
}

/// What is wrong with what was read of a key.
pub enum ReadFault {
    /// What is said.
    Wrong(String),
    /// The read failed; what is said of it first.
    Failed(String, ClientError),
}

/// Checks what was read of a key against the round in which it was last written.
pub fn verify_read(key: u64, expected_round: Option<u64>, value_bytes: usize, read: ReadResult) -> (r:
    Result<(), ReadFault>)
    requires
        value_bytes <= usize::MAX - 8,
    ensures
        match (expected_round, read) {
            (Some(round), ReadResult::Value(value)) => if value@ == trial_value(
                key,
                round,
                value_bytes as nat,
            ) {
                r is Ok
            } else {
                r matches Err(ReadFault::Wrong(message)) && message@ == "value mismatch for key "@
                    + decimal_text(key as nat) + " in round "@ + decimal_text(round as nat)
            },
            (Some(round), ReadResult::Failed(error)) => r matches Err(
                ReadFault::Failed(context, cause),
            ) && cause == error && context@ == "get key "@ + decimal_text(key as nat)
                + " in round "@ + decimal_text(round as nat),
            (None, ReadResult::Value(_)) => r matches Err(ReadFault::Wrong(message)) && message@
                == "deleted key "@ + decimal_text(key as nat) + " unexpectedly has a value"@,
            (None, ReadResult::Failed(error)) => if finds_nothing(error) {
                r is Ok
            } else {
                r matches Err(ReadFault::Failed(context, cause)) && cause == error && context@
                    == "expected key "@ + decimal_text(key as nat) + " to remain absent"@
            },
        },
{
    match expected_round {
        Some(round) => match read {
            ReadResult::Value(value) => {
                let expected = deterministic_value(key, round, value_bytes);
                if same_bytes(value.as_slice(), expected.as_slice()) {
                    Ok(())
                } else {
                    let before = around_number("value mismatch for key ", key, " in round ");
                    Err(ReadFault::Wrong(ending_in(before.as_str(), round)))
                }
            },
            ReadResult::Failed(error) => {
                let before = around_number("get key ", key, " in round ");
                Err(ReadFault::Failed(ending_in(before.as_str(), round), error))
            },
        },
        None => match read {
            ReadResult::Value(_) => Err(
                ReadFault::Wrong(around_number("deleted key ", key, " unexpectedly has a value")),
            ),
            ReadResult::Failed(error) => if is_not_found(&error) {
                Ok(())
            } else {
                Err(
                    ReadFault::Failed(
                        around_number("expected key ", key, " to remain absent"),
                        error,
                    ),
                )
            },
        },
    }
}

fn ending_in(before: &str, n: u64) -> (r: String)
    ensures
        r@ == before@ + decimal_text(n as nat),
{
    let r = around_number(before, n, "");
    proof {
        reveal_strlit("");
        assert(r@ =~= before@ + decimal_text(n as nat));
    }
    r
}

/// How many keys of a failed owner are looked at.
pub const SAMPLED_KEYS: usize = 128;

/// Those of the first `n` keys that a node owns, as many as are looked at.
pub open spec fn owned_keys(t: SnapshotView, node: Seq<char>, n: nat) -> Seq<u64>
    decreases n,
{
    if n == 0 {
        Seq::empty()
    } else {
        let rest = owned_keys(t, node, (n - 1) as nat);
        if rest.len() < SAMPLED_KEYS && t.owner_id(t.key_token(be64((n - 1) as u64))) == node {
            rest.push((n - 1) as u64)
        } else {
            rest
        }
    }
}

/// Picks keys that a node owns; there must be one.
pub fn sample_owned_keys(topology: &TopologySnapshot, node_id: &String, key_count: u64) -> (r: Result<
    Vec<u64>,
    String,
>)
    requires
        topology@.sound(),
    ensures
        match r {
            Ok(keys) => keys@ == owned_keys(topology@, node_id@, key_count as nat) && keys@.len()
                > 0,
            Err(message) => owned_keys(topology@, node_id@, key_count as nat).len() == 0
                && message@ == "availability dataset has no keys owned by the failed node"@,
        },
{
    let mut keys: Vec<u64> = Vec::new();
    let mut key: u64 = 0;
    while key < key_count
        invariant
            topology@.sound(),
            key <= key_count,
            keys@ == owned_keys(topology@, node_id@, key as nat),
        decreases key_count - key,
    {
        let mut encoded: Vec<u8> = Vec::new();
        put_be64(&mut encoded, key);
        proof {
            assert(encoded@ =~= be64(key));
            law_every_token_has_a_member_owner(topology@, topology@.key_token(encoded@));
        }
        let owns = match topology.owner(encoded.as_slice()) {
            Ok(owner) => same_text(owner.node_id.as_str(), node_id.as_str()),
            Err(_) => false,
        };
        if owns && keys.len() < SAMPLED_KEYS {
            keys.push(key);
        }
        key = key + 1;
    }
    if keys.len() == 0 {
        return Err(owned("availability dataset has no keys owned by the failed node"));
    }
    Ok(keys)
}

/// How large the last write before a failure is: large enough to be in flight for a while.
pub fn tail_bytes(value_bytes: usize) -> (r: usize)
    ensures
        r == if value_bytes < 1_048_576 {
            1_048_576
        } else if value_bytes > DEFAULT_MAX_VALUE_BYTES {
            DEFAULT_MAX_VALUE_BYTES
        } else {
            value_bytes
        },
{
    if value_bytes < 1_048_576 {
        1_048_576
    } else if value_bytes > DEFAULT_MAX_VALUE_BYTES {
        DEFAULT_MAX_VALUE_BYTES
    } else {
        value_bytes
    }
}

/// How long reads have failed; times are in milliseconds.
#[derive(Clone, Copy, Debug, Eq, PartialEq, Structural)]
pub struct OutageTracker {
    /// Since when reads fail.
    pub since: Option<u64>,
    /// The longest time for which they have.
    pub longest: u64,
    /// How many have.
    pub unavailable: u64,
}

/// The time from one instant to another, nothing where it runs backwards.
pub open spec fn elapsed(from: u64, to: u64) -> u64 {
    if to > from {
        (to - from) as u64
    } else {
        0
    }
}

impl OutageTracker {
    /// What is known after one more read.
    pub open spec fn after(self, available: bool, now: u64) -> OutageTracker {
        if available {
            self.closed(now)
        } else {
            OutageTracker {
                since: if self.since is Some {
                    self.since
                } else {
                    Some(now)
                },
                longest: self.longest,
                unavailable: if self.unavailable == u64::MAX {
                    u64::MAX
                } else {
                    (self.unavailable + 1) as u64
                },
            }
        }
    }

    /// What is known once reads succeed again, or no more are made.
    pub open spec fn closed(self, now: u64) -> OutageTracker {
        OutageTracker {
            since: None,
            longest: if self.since is Some && elapsed(self.since->0, now) > self.longest {
                elapsed(self.since->0, now)
            } else {
                self.longest
            },
            unavailable: self.unavailable,
        }
    }

    pub fn new() -> (r: Self)
        ensures
            r == (OutageTracker { since: None, longest: 0, unavailable: 0 }),
    {
        OutageTracker { since: None, longest: 0, unavailable: 0 }
    }

    /// Ends the time for which reads fail.
    pub fn close(&mut self, now: u64)
        ensures
            *final(self) == old(self).closed(now),
    {
        if let Some(since) = self.since {
            let time = now.saturating_sub(since);
            if time > self.longest {
                self.longest = time;
            }
            self.since = None;
        }
    }

    /// Takes note of one read.
    pub fn observe(&mut self, available: bool, now: u64)
        ensures
            *final(self) == old(self).after(available, now),
    {
        if available {
            self.close(now);
        } else {
            self.unavailable = self.unavailable.saturating_add(1);
            if self.since.is_none() {
                self.since = Some(now);
            }
        }
    }
}

/// Tells whether a read shows that the cluster serves a key: it has a value, or it has none.
pub fn read_shows_service(read: &ReadResult) -> (r: bool)
    ensures
        r == match *read {
            ReadResult::Value(_) => true,
            ReadResult::Failed(error) => finds_nothing(error),
        },
{
    match read {
        ReadResult::Value(_) => true,
        ReadResult::Failed(error) => is_not_found(error),
    }
}

/// Tells whether a topology without a failed node was published.
pub fn failover_published(current: &TopologySnapshot, before_epoch: u64, failed_node_id: &String) -> (r:
    bool)
    ensures
        r == (current@.epoch > before_epoch && !current@.is_member(failed_node_id@)),
{
    current.epoch > before_epoch && current.member(failed_node_id.as_str()).is_none()
}

/// What became of an acknowledged key.
#[derive(Clone, Copy, Debug, Eq, PartialEq, Structural)]
pub enum Survival {
    Preserved,
    Lost,
}

/// What is made of the read of an acknowledged key after a failure. The last key that was
/// written may have the value of that write or, if that was lost, the one before.
pub open spec fn survives(
    key: u64,
    tail_key: u64,
    tail_length: nat,
    value_bytes: nat,
    value: Seq<u8>,
) -> Option<Survival> {
    if key == tail_key && value == trial_value(key, 1, tail_length) {
        Some(Survival::Preserved)
    } else if value == trial_value(key, 0, value_bytes) {
        if key == tail_key {
            Some(Survival::Lost)
        } else {
            Some(Survival::Preserved)
        }
    } else {
        None
    }
}

/// Decides what became of an acknowledged key.
pub fn judge_survival(
    key: u64,
    tail_key: u64,
    tail_length: usize,
    value_bytes: usize,
    read: ReadResult,
) -> (r: Result<Survival, ReadFault>)
    requires
        tail_length <= usize::MAX - 8,
        value_bytes <= usize::MAX - 8,
    ensures
        match read {
            ReadResult::Value(value) => match survives(
                key,
                tail_key,
                tail_length as nat,
                value_bytes as nat,
                value@,
            ) {
                Some(survival) => r == Ok::<Survival, ReadFault>(survival),
                None => r matches Err(ReadFault::Wrong(message)) && message@ == if key
                    == tail_key {
                    "tail key "@ + decimal_text(key as nat)
                        + " has a value other than the acknowledged or prior value"@
                } else {
                    "surviving key "@ + decimal_text(key as nat) + " has an unexpected value"@
                },
            },
            ReadResult::Failed(error) => if finds_nothing(error) {
                r == Ok::<Survival, ReadFault>(Survival::Lost)
            } else {
                r matches Err(ReadFault::Failed(context, cause)) && cause == error && context@
                    == "reading acknowledged key "@ + decimal_text(key as nat)
                    + " after failover"@
            },
        },
{
    match read {
        ReadResult::Value(value) => {
            if key == tail_key {
                let tail = deterministic_value(key, 1, tail_length);
                if same_bytes(value.as_slice(), tail.as_slice()) {
                    return Ok(Survival::Preserved);
                }
            }
            let prior = deterministic_value(key, 0, value_bytes);
            if same_bytes(value.as_slice(), prior.as_slice()) {
                if key == tail_key {
                    return Ok(Survival::Lost);
                }
                return Ok(Survival::Preserved);
            }
            let message = if key == tail_key {
                around_number(
                    "tail key ",
                    key,
                    " has a value other than the acknowledged or prior value",
                )
            } else {
                around_number("surviving key ", key, " has an unexpected value")
            };
            Err(ReadFault::Wrong(message))
        },
        ReadResult::Failed(error) => if is_not_found(&error) {
            Ok(Survival::Lost)
        } else {
            Err(
                ReadFault::Failed(
                    around_number("reading acknowledged key ", key, " after failover"),
                    error,
                ),
            )
        },
    }
}

/// Checks that no acknowledged write was lost where a successor had to acknowledge it too.
pub fn check_losses(policy: WriteAckPolicy, lost: u64) -> (r: Result<(), String>)
    ensures
        r is Ok == (policy != WriteAckPolicy::FirstSuccessor || lost == 0),
        r matches Err(message) ==> message@ == "FirstSuccessor lost "@ + decimal_text(lost as nat)
            + " acknowledged sampled keys"@,
{
    if policy == WriteAckPolicy::FirstSuccessor && lost > 0 {
        return Err(around_number("FirstSuccessor lost ", lost, " acknowledged sampled keys"));
    }
    Ok(())
}

/// What is known while waiting for a failover.
#[derive(Clone, Copy, Debug, Eq, PartialEq, Structural)]
pub struct FailoverWatch {
    pub outage: OutageTracker,
    /// When the topology without the failed node was first seen.
    pub published: Option<u64>,
}

/// What to do while waiting for a failover.
#[derive(Debug, Eq, PartialEq)]
pub enum FailoverStep {
    /// A successor was published and serves the key that is read.
    Recovered,
    /// Look again later.
    Wait,
    /// It takes too long; what is said.
    GiveUp(String),
}

impl FailoverWatch {
    /// What is known after one more look.
    pub open spec fn after(self, available: bool, published: bool, now: u64) -> FailoverWatch {
        FailoverWatch {
            outage: self.outage.after(available, now),
            published: if self.published is None && published {
                Some(now)
            } else {
                self.published
            },
        }
    }

    pub fn new() -> (r: Self)
        ensures
            r == (FailoverWatch {
                outage: OutageTracker { since: None, longest: 0, unavailable: 0 },
                published: None,
            }),
    {
        FailoverWatch { outage: OutageTracker::new(), published: None }
    }

    /// Takes note of one look and decides whether to look again.
    pub fn observe(&mut self, available: bool, published: bool, now: u64, deadline: u64) -> (r:
        FailoverStep)
        ensures
            *final(self) == old(self).after(available, published, now),
            match r {
                FailoverStep::Recovered => final(self).published is Some && available,
                FailoverStep::Wait => !(final(self).published is Some && available) && now
                    < deadline,
                FailoverStep::GiveUp(message) => !(final(self).published is Some && available)
                    && now >= deadline && message@
                    == "automatic failover did not publish and resolve the read probe within 30 seconds"@,
            },
    {
        self.outage.observe(available, now);
        if self.published.is_none() && published {
            self.published = Some(now);
        }
        if self.published.is_some() && available {
            return FailoverStep::Recovered;
        }
        if now < deadline {
            return FailoverStep::Wait;
        }
        FailoverStep::GiveUp(
            owned(
                "automatic failover did not publish and resolve the read probe within 30 seconds",
            ),
        )
    }
}

/// How many acknowledged keys survived.
#[derive(Clone, Copy, Debug, Eq, PartialEq, Structural)]
pub struct SurvivalCount {
    pub sampled: u64,
    pub lost: u64,
    pub tail_survived: bool,
}

/// How many of the first `n` keys were lost.
pub open spec fn losses(found: Seq<Survival>, n: nat) -> nat
    decreases n,
{
    if n == 0 {
        0
    } else {
        losses(found, (n - 1) as nat) + if found[n - 1] is Lost {
            1nat
        } else {
            0
        }
    }
}

/// Counts the acknowledged keys that survived; the last one is the one written last.
pub fn count_survivors(found: &Vec<Survival>) -> (r: SurvivalCount)
    requires
        found@.len() <= SAMPLED_KEYS,
    ensures
        r == (SurvivalCount {
            sampled: found@.len() as u64,
            lost: losses(found@, found@.len()) as u64,
            tail_survived: found@.len() == 0 || found@.last() is Preserved,
        }),
        losses(found@, found@.len()) <= found@.len(),
{
    let mut lost: u64 = 0;
    let mut i: usize = 0;
    while i < found.len()
        invariant
            i <= found@.len() <= SAMPLED_KEYS,
            lost <= i,
            lost == losses(found@, i as nat),
        decreases found.len() - i,
    {
        if found[i] == Survival::Lost {
            lost = lost + 1;
        }
        i = i + 1;
    }
    SurvivalCount {
        sampled: found.len() as u64,
        lost,
        tail_survived: found.len() == 0 || found[found.len() - 1] == Survival::Preserved,
    }
}

/// What is done in a trial, one after the other.
#[derive(Clone, Copy, Debug, Eq, PartialEq, Structural)]
pub enum TrialStep {
    StartCluster,
    AwaitCopies,
    SetPolicy,
    WriteDataset,
    VerifyDataset,
    SampleClientLatency,
    SampleOwnerLatency,
    /// Pick keys of the owner that will fail.
    SampleOwnedKeys,
    /// Have a last write acknowledged.
    WriteTail,
    KillOwner,
    AwaitFailover,
    CheckSurvival,
    /// Wait until the change that the failure began has ended.
    AwaitChange,
    ReplaceOwner,
    /// Add a node while keys are written and deleted.
    ScaleOut,
    /// Take it out again.
    ScaleIn,
    /// Wait until the node that was taken out has exited.
    AwaitExit,
    /// Look at the cluster once more.
    Conclude,
}

/// The steps in which an owner fails and is replaced.
pub open spec fn failover_plan() -> Seq<TrialStep> {
    seq![
        TrialStep::SampleOwnedKeys,
        TrialStep::WriteTail,
        TrialStep::KillOwner,
        TrialStep::AwaitFailover,
        TrialStep::CheckSurvival,
        TrialStep::AwaitChange,
        TrialStep::ReplaceOwner,
        TrialStep::AwaitCopies,
    ]
}

/// Plans the steps in which an owner fails and is replaced.
pub fn run_availability(steps: &mut Vec<TrialStep>)
    ensures
        final(steps)@ == old(steps)@ + failover_plan(),
{
    steps.push(TrialStep::SampleOwnedKeys);
    steps.push(TrialStep::WriteTail);
    steps.push(TrialStep::KillOwner);
    steps.push(TrialStep::AwaitFailover);
    steps.push(TrialStep::CheckSurvival);
    steps.push(TrialStep::AwaitChange);
    steps.push(TrialStep::ReplaceOwner);
    steps.push(TrialStep::AwaitCopies);
    proof {
        assert(steps@ =~= old(steps)@ + failover_plan());
    }
}

/// The steps of a trial.
pub open spec fn trial_plan(mode: ExperimentMode, policy: WriteAckPolicy) -> Seq<TrialStep> {
    let set = if policy != WriteAckPolicy::OwnerOnly {
        seq![TrialStep::SetPolicy]
    } else {
        Seq::empty()
    };
    let rest = match mode {
        ExperimentMode::Availability => failover_plan(),
        ExperimentMode::Correctness => seq![
            TrialStep::ScaleOut,
            TrialStep::AwaitCopies,
            TrialStep::VerifyDataset,
            TrialStep::ScaleIn,
            TrialStep::AwaitExit,
            TrialStep::AwaitCopies,
            TrialStep::VerifyDataset,
            TrialStep::Conclude,
        ],
        ExperimentMode::Performance => seq![TrialStep::Conclude],
    };
    seq![TrialStep::StartCluster, TrialStep::AwaitCopies] + set + seq![
        TrialStep::WriteDataset,
        TrialStep::VerifyDataset,
        TrialStep::SampleClientLatency,
        TrialStep::SampleOwnerLatency,
    ] + rest
}

/// Plans the steps of a trial.
pub fn run_cluster(mode: ExperimentMode, policy: WriteAckPolicy) -> (r: Vec<TrialStep>)
    ensures
        r@ == trial_plan(mode, policy),
{
    let mut r: Vec<TrialStep> = Vec::new();
    r.push(TrialStep::StartCluster);
    r.push(TrialStep::AwaitCopies);
    if policy != WriteAckPolicy::OwnerOnly {
        r.push(TrialStep::SetPolicy);
    }
    r.push(TrialStep::WriteDataset);
    r.push(TrialStep::VerifyDataset);
    r.push(TrialStep::SampleClientLatency);
    r.push(TrialStep::SampleOwnerLatency);
    match mode {
        ExperimentMode::Availability => {
            run_availability(&mut r);
        },
        ExperimentMode::Correctness => {
            r.push(TrialStep::ScaleOut);
            r.push(TrialStep::AwaitCopies);
            r.push(TrialStep::VerifyDataset);
            r.push(TrialStep::ScaleIn);
            r.push(TrialStep::AwaitExit);
            r.push(TrialStep::AwaitCopies);
            r.push(TrialStep::VerifyDataset);
            r.push(TrialStep::Conclude);
        },
        ExperimentMode::Performance => {
            r.push(TrialStep::Conclude);
        },
    }
    proof {
        assert(r@ =~= trial_plan(mode, policy));
    }
    r
}

/// After a dataset was written and each of its keys noted, reading back what was noted is right,
/// and nothing else is.
pub proof fn law_written_rounds_are_read_back(
    rounds: Seq<Option<u64>>,
    keys: Seq<u64>,
    round: Option<u64>,
    n: nat,
    key: u64,
)
    requires
        n <= keys.len(),
        0 <= key < rounds.len(),
        forall|i: int| 0 <= i < keys.len() ==> (#[trigger] keys[i]) < rounds.len(),
    ensures
        rounds_after(rounds, keys, round, n).len() == rounds.len(),
        rounds_after(rounds, keys, round, n)[key as int] == if keys.subrange(0, n as int).contains(
            key,
        ) {
            round
        } else {
            rounds[key as int]
        },
    decreases n,
{
    if n > 0 {
        law_written_rounds_are_read_back(rounds, keys, round, (n - 1) as nat, key);
        let shorter = keys.subrange(0, n - 1);
        let longer = keys.subrange(0, n as int);
        assert(longer =~= shorter.push(keys[n - 1]));
        if shorter.contains(key) {
            let i = choose|i: int| 0 <= i < shorter.len() && shorter[i] == key;
            assert(longer[i] == key);
        }
        if keys[n - 1] == key {
            assert(longer[n - 1] == key);
        }
        if longer.contains(key) && keys[n - 1] != key {
            let i = choose|i: int| 0 <= i < longer.len() && longer[i] == key;
            assert(shorter[i] == key);
        }
    }
}

} // verus!
