//! Keeping account of the repair of copies.
use crate::bytes::{be64, put_be64, put_text};
use crate::changes::next_view;
use crate::cluster::{
    AdmissionView, ClusterState, ClusterView, RepairView, ReplicaAdmission, ReplicaRepair,
    ReplicaRepairPhase,
};
use crate::errors::{refusal, Code, Status, StatusView};
use crate::hashing::{blake3_hex, blake3_hex_of};
use crate::node_checkpoint::RangeControl;
use crate::reconcile::{lemma_sifted_prefix, sifted};
use crate::text::{joined, same_text};
use crate::views::{lemma_views_push, views};
use vstd::prelude::*;
use vstd::string::StrSliceExecFns;
use vstd::utf8::encode_utf8;

verus! {

/// What the name of a repair is made of.
pub open spec fn repair_bytes(task: RepairView) -> Seq<u8> {
    encode_utf8("hashring-rs:replica-repair:v1\0"@) + be64(task.epoch) + be64(
        task.start_exclusive,
    ) + be64(task.end_inclusive) + encode_utf8(task.owner_node_id) + encode_utf8(task.node_id)
}

/// The name of a repair, as a change and as a range.
pub open spec fn repair_name(task: RepairView) -> Seq<char> {
    "repair-"@ + blake3_hex(repair_bytes(task))
}

/// The name under which a repair moves its range.
pub fn replica_repair_control(task: &ReplicaRepair) -> (r: RangeControl)
    ensures
        r@ == (repair_name(task@), repair_name(task@)),
{
    let mut bytes: Vec<u8> = Vec::new();
    put_text(&mut bytes, "hashring-rs:replica-repair:v1\0");
    put_be64(&mut bytes, task.epoch);
    put_be64(&mut bytes, task.start_exclusive);
    put_be64(&mut bytes, task.end_inclusive);
    put_text(&mut bytes, task.owner_node_id.as_str());
    put_text(&mut bytes, task.node_id.as_str());
    proof {
        assert(bytes@ =~= repair_bytes(task@));
    }
    let name = joined("repair-", blake3_hex_of(bytes.as_slice()).as_str());
    RangeControl { change_id: name.clone(), range_id: name }
}

/// Two repairs are of one copy in one epoch.
pub open spec fn same_task(a: RepairView, b: RepairView) -> bool {
    a.epoch == b.epoch && a.place() == b.place()
}

fn is_same_task(a: &ReplicaRepair, b: &ReplicaRepair) -> (r: bool)
    ensures
        r == same_task(a@, b@),
{
    a.epoch == b.epoch && a.start_exclusive == b.start_exclusive && a.end_inclusive
        == b.end_inclusive && same_text(a.owner_node_id.as_str(), b.owner_node_id.as_str())
        && same_text(a.node_id.as_str(), b.node_id.as_str())
}

/// Finds the repair of a copy from `i` on; where `unfinished`, one that is not complete.
pub open spec fn task_index(list: Seq<RepairView>, task: RepairView, unfinished: bool, i: nat) -> Option<
    nat,
>
    decreases list.len() - i,
{
    if i >= list.len() {
        None
    } else if same_task(list[i as int], task) && !(unfinished && list[i as int].phase is Complete) {
        Some(i)
    } else {
        task_index(list, task, unfinished, i + 1)
    }
}

fn find_task(list: &Vec<ReplicaRepair>, task: &ReplicaRepair, unfinished: bool) -> (r: Option<
    usize,
>)
    ensures
        match r {
            Some(i) => i < list@.len() && task_index(views(list@), task@, unfinished, 0) == Some(
                i as nat,
            ),
            None => task_index(views(list@), task@, unfinished, 0) is None,
        },
{
    let ghost s = views(list@);
    let mut i: usize = 0;
    while i < list.len()
        invariant
            s == views(list@),
            i <= list@.len(),
            task_index(s, task@, unfinished, 0) == task_index(s, task@, unfinished, i as nat),
        decreases list.len() - i,
    {
        proof {
            assert(s[i as int] == list@[i as int]@);
        }
        if is_same_task(&list[i], task) && !(unfinished && list[i].phase
            == ReplicaRepairPhase::Complete) {
            return Some(i);
        }
        i = i + 1;
    }
    None
}

/// How many seconds a repair waits after so many failures.
pub open spec fn repair_delay_secs(retries: u32) -> u64 {
    if retries == 0 {
        1
    } else if retries == 1 {
        2
    } else if retries == 2 {
        4
    } else if retries == 3 {
        8
    } else if retries == 4 {
        16
    } else if retries == 5 {
        32
    } else {
        60
    }
}

fn delay_secs(retries: u32) -> (r: u64)
    ensures
        r == repair_delay_secs(retries),
        r <= 60,
{
    if retries >= 6 {
        return 60;
    }
    let shift: u64 = retries as u64;
    let r = 1u64 << shift;
    proof {
        assert(1u64 << 0u64 == 1) by (bit_vector);
        assert(1u64 << 1u64 == 2) by (bit_vector);
        assert(1u64 << 2u64 == 4) by (bit_vector);
        assert(1u64 << 3u64 == 8) by (bit_vector);
        assert(1u64 << 4u64 == 16) by (bit_vector);
        assert(1u64 << 5u64 == 32) by (bit_vector);
    }
    r
}

/// How much of an error a repair remembers.
pub const REPAIR_ERROR_CHARS: usize = 256;

/// The beginning of an error.
pub open spec fn shortened(message: Seq<char>) -> Seq<char> {
    if message.len() <= REPAIR_ERROR_CHARS {
        message
    } else {
        message.subrange(0, REPAIR_ERROR_CHARS as int)
    }
}

/// The beginning of an error.
pub fn shorten(message: &str) -> (r: String)
    ensures
        r@ == shortened(message@),
{
    let length = message.unicode_len();
    let count = if length <= REPAIR_ERROR_CHARS {
        length
    } else {
        REPAIR_ERROR_CHARS
    };
    let mut r = String::new();
    let mut i: usize = 0;
    proof {
        assert(r@ =~= message@.subrange(0, 0));
    }
    while i < count
        invariant
            i <= count <= message@.len(),
            r@ == message@.subrange(0, i as int),
        decreases count - i,
    {
        r.push(message.get_char(i));
        proof {
            assert(r@ =~= message@.subrange(0, i + 1));
        }
        i = i + 1;
    }
    proof {
        assert(message@.subrange(0, message@.len() as int) =~= message@);
    }
    r
}

/// A repair after one more failure.
pub open spec fn backed_off(r: RepairView, message: Seq<char>, now: u64) -> RepairView {
    let retries = if r.retry_count == u32::MAX {
        u32::MAX
    } else {
        (r.retry_count + 1) as u32
    };
    let next = now + repair_delay_secs(retries) * 1000;
    RepairView {
        retry_count: retries,
        next_attempt_unix_millis: if next <= u64::MAX {
            next as u64
        } else {
            u64::MAX
        },
        last_error: shortened(message),
        ..r
    }
}

/// Repairs after the first `n` tasks have failed.
pub open spec fn all_backed_off(
    list: Seq<RepairView>,
    tasks: Seq<RepairView>,
    message: Seq<char>,
    now: u64,
    n: nat,
) -> Seq<RepairView>
    decreases n,
{
    if n == 0 {
        list
    } else {
        let before = all_backed_off(list, tasks, message, now, (n - 1) as nat);
        match task_index(before, tasks[n - 1], true, 0) {
            Some(i) => before.update(i as int, backed_off(before[i as int], message, now)),
            None => before,
        }
    }
}

/// Repairs with the first `n` tasks in a phase, if there are repairs of all of them.
pub open spec fn all_in_phase(
    list: Seq<RepairView>,
    tasks: Seq<RepairView>,
    phase: ReplicaRepairPhase,
    n: nat,
) -> Option<Seq<RepairView>>
    decreases n,
{
    if n == 0 {
        Some(list)
    } else {
        match all_in_phase(list, tasks, phase, (n - 1) as nat) {
            None => None,
            Some(before) => match task_index(before, tasks[n - 1], false, 0) {
                Some(i) => Some(
                    before.update(i as int, RepairView { phase: phase, ..before[i as int] }),
                ),
                None => None,
            },
        }
    }
}

/// What is said where a repair is gone.
pub open spec fn invalidated() -> StatusView {
    refusal(Code::FailedPrecondition, "replica repair was invalidated"@)
}

impl ClusterView {
    /// The state after these repairs have failed.
    pub open spec fn with_failures(
        self,
        tasks: Seq<RepairView>,
        message: Seq<char>,
        now: u64,
    ) -> ClusterView {
        ClusterView {
            replica_repairs: all_backed_off(
                self.replica_repairs,
                tasks,
                message,
                now,
                tasks.len(),
            ),
            ..self
        }
    }
}

/// What comes of seeding a group of repairs.
pub enum GroupOutcome {
    /// All copies were made; so many.
    Seeded(usize),
    /// None counts, and the state notes why.
    Failed(ClusterState),
}

impl ClusterState {
    /// Notes that repairs have failed: each waits longer before it is tried again.
    pub fn record_repair_failure(&self, tasks: &Vec<ReplicaRepair>, message: &str, now: u64) -> (r:
        ClusterState)
        ensures
            r@ == self@.with_failures(views(tasks@), message@, now),
    {
        let mut next = self.clone();
        let ghost list = self@.replica_repairs;
        let ghost t = views(tasks@);
        let mut i: usize = 0;
        while i < tasks.len()
            invariant
                list == self@.replica_repairs,
                t == views(tasks@),
                i <= tasks@.len(),
                next@ == (ClusterView {
                    replica_repairs: all_backed_off(list, t, message@, now, i as nat),
                    ..self@
                }),
            decreases tasks.len() - i,
        {
            let ghost before = next@.replica_repairs;
            proof {
                assert(t[i as int] == tasks@[i as int]@);
            }
            if let Some(at) = find_task(&next.replica_repairs, &tasks[i], true) {
                let mut repair = next.replica_repairs[at].clone();
                proof {
                    assert(before[at as int] == repair@);
                }
                let ghost was = repair@;
                repair.retry_count = repair.retry_count.saturating_add(1);
                repair.next_attempt_unix_millis = now.saturating_add(
                    delay_secs(repair.retry_count) * 1000,
                );
                repair.last_error = shorten(message);
                proof {
                    assert(repair@ =~= backed_off(was, message@, now));
                }
                let ghost is = repair@;
                next.replica_repairs.set(at, repair);
                proof {
                    assert(views(next.replica_repairs@) =~= before.update(at as int, is));
                }
            }
            proof {
                assert(next@ =~= ClusterView {
                    replica_repairs: all_backed_off(list, t, message@, now, (i + 1) as nat),
                    ..self@
                });
            }
            i = i + 1;
        }
        next
    }

    /// Ends the seeding of a group of repairs: it counts where it went well, and is noted to
    /// be tried again where it did not.
    pub fn close_repair_group(
        &self,
        tasks: &Vec<ReplicaRepair>,
        failure: Option<&str>,
        now: u64,
    ) -> (r: GroupOutcome)
        ensures
            match failure {
                None => r == GroupOutcome::Seeded(tasks.len()),
                Some(message) => r matches GroupOutcome::Failed(next) && next@
                    == self@.with_failures(views(tasks@), message@, now),
            },
    {
        match failure {
            None => GroupOutcome::Seeded(tasks.len()),
            Some(message) => GroupOutcome::Failed(self.record_repair_failure(tasks, message, now)),
        }
    }

    /// Notes how far repairs have come.
    pub fn set_repair_phases(&self, tasks: &Vec<ReplicaRepair>, phase: ReplicaRepairPhase) -> (r:
        Result<ClusterState, Status>)
        ensures
            next_view(r) == match all_in_phase(
                self@.replica_repairs,
                views(tasks@),
                phase,
                tasks@.len(),
            ) {
                Some(list) => Ok(ClusterView { replica_repairs: list, ..self@ }),
                None => Err(invalidated()),
            },
    {
        let mut next = self.clone();
        let ghost list = self@.replica_repairs;
        let ghost t = views(tasks@);
        let mut i: usize = 0;
        while i < tasks.len()
            invariant
                list == self@.replica_repairs,
                t == views(tasks@),
                i <= tasks@.len(),
                all_in_phase(list, t, phase, i as nat) is Some,
                next@ == (ClusterView {
                    replica_repairs: all_in_phase(list, t, phase, i as nat)->0,
                    ..self@
                }),
            decreases tasks.len() - i,
        {
            let ghost before = next@.replica_repairs;
            proof {
                assert(t[i as int] == tasks@[i as int]@);
            }
            match find_task(&next.replica_repairs, &tasks[i], false) {
                Some(at) => {
                    let mut repair = next.replica_repairs[at].clone();
                    proof {
                        assert(before[at as int] == repair@);
                    }
                    repair.phase = phase;
                    let ghost is = repair@;
                    next.replica_repairs.set(at, repair);
                    proof {
                        assert(views(next.replica_repairs@) =~= before.update(at as int, is));
                        assert(next@ =~= ClusterView {
                            replica_repairs: all_in_phase(list, t, phase, (i + 1) as nat)->0,
                            ..self@
                        });
                    }
                },
                None => {
                    proof {
                        lemma_phase_stops(list, t, phase, i as nat + 1, t.len());
                    }
                    return Err(
                        Status::new(Code::FailedPrecondition, "replica repair was invalidated"),
                    );
                },
            }
            i = i + 1;
        }
        Ok(next)
    }
}

proof fn lemma_phase_stops(
    list: Seq<RepairView>,
    tasks: Seq<RepairView>,
    phase: ReplicaRepairPhase,
    i: nat,
    n: nat,
)
    requires
        i <= n,
        all_in_phase(list, tasks, phase, i) is None,
    ensures
        all_in_phase(list, tasks, phase, n) is None,
    decreases n,
{
    if i < n {
        lemma_phase_stops(list, tasks, phase, i, (n - 1) as nat);
    }
}

/// A copy that was verified and waits to be admitted.
pub struct PreparedReplicaSeed {
    pub task: ReplicaRepair,
    pub control: RangeControl,
    pub admission: ReplicaAdmission,
}

#[verifier::ext_equal]
pub struct SeedView {
    pub task: RepairView,
    pub control: (Seq<char>, Seq<char>),
    pub admission: AdmissionView,
}

impl View for PreparedReplicaSeed {
    type V = SeedView;

    open spec fn view(&self) -> SeedView {
        SeedView { task: self.task@, control: self.control@, admission: self.admission@ }
    }
}

/// A repair that is done.
pub open spec fn completed(r: RepairView) -> RepairView {
    RepairView {
        phase: ReplicaRepairPhase::Complete,
        retry_count: 0,
        next_attempt_unix_millis: 0,
        last_error: Seq::empty(),
        ..r
    }
}

/// Admissions of other copies, or of other epochs.
pub open spec fn of_other_copies(task: RepairView) -> spec_fn(AdmissionView) -> bool {
    |a: AdmissionView| !(a.epoch == task.epoch && a.place() == task.place())
}

impl ClusterView {
    /// What comes of admitting one verified copy.
    pub open spec fn admitting(self, seed: SeedView) -> Result<ClusterView, StatusView> {
        let at = task_index(self.replica_repairs, seed.task, false, 0);
        if self.committed.epoch != seed.task.epoch || !self.runs(
            seed.task.node_id,
            seed.admission.process_instance_id,
        ) {
            Err(refusal(Code::FailedPrecondition, "replica changed before durable admission"@))
        } else if at is None {
            Err(invalidated())
        } else {
            Ok(
                ClusterView {
                    replica_repairs: self.replica_repairs.update(
                        at->0 as int,
                        completed(self.replica_repairs[at->0 as int]),
                    ),
                    replica_admissions: sifted(
                        self.replica_admissions,
                        of_other_copies(seed.task),
                    ).push(seed.admission),
                    ..self
                },
            )
        }
    }

    /// What comes of admitting the first `n` verified copies.
    pub open spec fn admitting_all(self, seeds: Seq<SeedView>, n: nat) -> Result<
        ClusterView,
        StatusView,
    >
        decreases n,
    {
        if n == 0 {
            Ok(self)
        } else {
            match self.admitting_all(seeds, (n - 1) as nat) {
                Ok(before) => before.admitting(seeds[n - 1]),
                Err(status) => Err(status),
            }
        }
    }
}

fn other_admissions(list: &Vec<ReplicaAdmission>, task: &ReplicaRepair) -> (r: Vec<
    ReplicaAdmission,
>)
    ensures
        views(r@) == sifted(views(list@), of_other_copies(task@)),
{
    let ghost s = views(list@);
    let ghost p = of_other_copies(task@);
    let mut r: Vec<ReplicaAdmission> = Vec::new();
    let mut i: usize = 0;
    proof {
        assert(s.subrange(0, 0) =~= Seq::empty());
        assert(views(r@) =~= Seq::empty());
    }
    while i < list.len()
        invariant
            s == views(list@),
            p == of_other_copies(task@),
            i <= list@.len(),
            views(r@) == sifted(s.subrange(0, i as int), p),
        decreases list.len() - i,
    {
        let a = &list[i];
        proof {
            assert(s[i as int] == a@);
            lemma_sifted_prefix(s, i as int, p);
        }
        if !(a.epoch == task.epoch && a.start_exclusive == task.start_exclusive && a.end_inclusive
            == task.end_inclusive && same_text(
            a.owner_node_id.as_str(),
            task.owner_node_id.as_str(),
        ) && same_text(a.node_id.as_str(), task.node_id.as_str())) {
            proof {
                lemma_views_push(r@, *a);
            }
            r.push(a.clone());
        }
        i = i + 1;
    }
    proof {
        assert(s.subrange(0, s.len() as int) =~= s);
    }
    r
}

impl ClusterState {
    fn admit_seed(self, seed: &PreparedReplicaSeed) -> (r: Result<ClusterState, Status>)
        ensures
            next_view(r) == self@.admitting(seed@),
    {
        let ghost before = self@;
        if self.committed.epoch != seed.task.epoch || !self.node_runs(
            &seed.task.node_id,
            seed.admission.process_instance_id.as_str(),
        ) {
            return Err(
                Status::new(
                    Code::FailedPrecondition,
                    "replica changed before durable admission",
                ),
            );
        }
        let at = match find_task(&self.replica_repairs, &seed.task, false) {
            Some(at) => at,
            None => return Err(
                Status::new(Code::FailedPrecondition, "replica repair was invalidated"),
            ),
        };
        let mut repair = self.replica_repairs[at].clone();
        proof {
            assert(before.replica_repairs[at as int] == repair@);
        }
        repair.phase = ReplicaRepairPhase::Complete;
        repair.retry_count = 0;
        repair.next_attempt_unix_millis = 0;
        repair.last_error = String::new();
        proof {
            assert(repair@ =~= completed(before.replica_repairs[at as int]));
        }
        let ghost is = repair@;
        let mut next = self;
        next.replica_repairs.set(at, repair);
        let mut admissions = other_admissions(&next.replica_admissions, &seed.task);
        proof {
            lemma_views_push(admissions@, seed.admission);
        }
        admissions.push(seed.admission.clone());
        next.replica_admissions = admissions;
        proof {
            assert(views(next.replica_repairs@) =~= before.replica_repairs.update(at as int, is));
            assert(next@ =~= before.admitting(seed@)->Ok_0);
        }
        Ok(next)
    }

    /// Admits verified copies, all or none.
    pub fn store_repair_admissions(&self, seeds: &Vec<PreparedReplicaSeed>) -> (r: Result<
        ClusterState,
        Status,
    >)
        ensures
            next_view(r) == self@.admitting_all(views(seeds@), seeds@.len()),
    {
        let mut next = self.clone();
        let ghost s = views(seeds@);
        let mut i: usize = 0;
        while i < seeds.len()
            invariant
                s == views(seeds@),
                i <= seeds@.len(),
                self@.admitting_all(s, i as nat) == Ok::<ClusterView, StatusView>(next@),
            decreases seeds.len() - i,
        {
            proof {
                assert(s[i as int] == seeds@[i as int]@);
            }
            match next.admit_seed(&seeds[i]) {
                Ok(admitted) => {
                    next = admitted;
                },
                Err(status) => {
                    proof {
                        lemma_admitting_stops(self@, s, i as nat + 1, s.len());
                    }
                    return Err(status);
                },
            }
            i = i + 1;
        }
        Ok(next)
    }
}

proof fn lemma_admitting_stops(v: ClusterView, seeds: Seq<SeedView>, i: nat, n: nat)
    requires
        i <= n,
        v.admitting_all(seeds, i) is Err,
    ensures
        v.admitting_all(seeds, n) == v.admitting_all(seeds, i),
    decreases n,
{
    if i < n {
        lemma_admitting_stops(v, seeds, i, (n - 1) as nat);
    }
}

/// A copy is admitted only while its follower runs the process that was verified, and its
/// repair is then complete.
pub proof fn law_admitted_copies_are_current(s: ClusterView, seed: SeedView)
    requires
        s.admitting(seed) is Ok,
    ensures
        s.runs(seed.task.node_id, seed.admission.process_instance_id),
        s.committed.epoch == seed.task.epoch,
        s.admitting(seed)->Ok_0.replica_admissions.last() == seed.admission,
        ({
            let at = task_index(s.replica_repairs, seed.task, false, 0)->0;
            s.admitting(seed)->Ok_0.replica_repairs[at as int].phase is Complete
        }),
{
    lemma_task_index(s.replica_repairs, seed.task, false, 0);
}

pub proof fn lemma_task_index(list: Seq<RepairView>, task: RepairView, unfinished: bool, i: nat)
    ensures
        task_index(list, task, unfinished, i) matches Some(at) ==> i <= at < list.len(),
    decreases list.len() - i,
{
    if i < list.len() {
        lemma_task_index(list, task, unfinished, i + 1);
    }
}

} // verus!
