//! Bringing the copies that a coordinator knows of in line with its topology.
use crate::cluster::{
    admitted_at, fault_of, fresh_repair, list_duties, place_ids, place_set, repair_ok,
    AdmissionView, ClusterState, ClusterView, Place, PlaceKey, RepairView, ReplicaAdmission,
    ReplicaRepair, ReplicaRepairPhase, RepositoryError, StateFault,
};
use crate::migration::MAX_REPLICA_OBLIGATIONS;
use crate::ordmap::MapKey;
use crate::sets::SortedSet;
use crate::text::{around_number, decimal_text, same_text};
use crate::topology::TopologyError;
use crate::views::{lemma_views_push, views};
use vstd::prelude::*;

verus! {

/// Those for which `p` holds, in their order.
pub open spec fn sifted<T>(s: Seq<T>, p: spec_fn(T) -> bool) -> Seq<T>
    decreases s.len(),
{
    if s.len() == 0 {
        Seq::empty()
    } else {
        let rest = sifted(s.drop_last(), p);
        if p(s.last()) {
            rest.push(s.last())
        } else {
            rest
        }
    }
}

/// What is sifted from one more.
pub proof fn lemma_sifted_prefix<T>(s: Seq<T>, n: int, p: spec_fn(T) -> bool)
    requires
        0 <= n < s.len(),
    ensures
        sifted(s.subrange(0, n + 1), p) == if p(s[n]) {
            sifted(s.subrange(0, n), p).push(s[n])
        } else {
            sifted(s.subrange(0, n), p)
        },
{
    assert(s.subrange(0, n + 1).drop_last() =~= s.subrange(0, n));
}

/// What is sifted satisfies the test and was there before, and nothing else is lost.
pub proof fn lemma_sifted<T>(s: Seq<T>, p: spec_fn(T) -> bool)
    ensures
        sifted(s, p).len() <= s.len(),
        forall|i: int| 0 <= i < sifted(s, p).len() ==> p(#[trigger] sifted(s, p)[i]),
        forall|i: int|
            0 <= i < sifted(s, p).len() ==> exists|j: int|
                0 <= j < s.len() && s[j] == #[trigger] sifted(s, p)[i],
        forall|j: int|
            0 <= j < s.len() && p(#[trigger] s[j]) ==> exists|i: int|
                0 <= i < sifted(s, p).len() && sifted(s, p)[i] == s[j],
    decreases s.len(),
{
    if s.len() > 0 {
        let t = s.drop_last();
        lemma_sifted(t, p);
        let a = sifted(t, p);
        let b = sifted(s, p);
        assert forall|i: int| 0 <= i < b.len() implies exists|j: int|
            0 <= j < s.len() && s[j] == #[trigger] b[i] by {
            if i < a.len() {
                assert(b[i] == a[i]);
                let j = choose|j: int| 0 <= j < t.len() && t[j] == a[i];
                assert(s[j] == b[i]);
            } else {
                assert(s[s.len() - 1] == b[i]);
            }
        }
        assert forall|j: int| 0 <= j < s.len() && p(#[trigger] s[j]) implies exists|i: int|
            0 <= i < b.len() && b[i] == s[j] by {
            if j < t.len() {
                assert(t[j] == s[j]);
                let i = choose|i: int| 0 <= i < a.len() && a[i] == t[j];
                assert(b[i] == s[j]);
            } else {
                assert(b[a.len() as int] == s[j]);
            }
        }
        assert forall|i: int| 0 <= i < b.len() implies p(#[trigger] b[i]) by {
            if i < a.len() {
                assert(b[i] == a[i]);
            }
        }
    }
}

/// An admission that still holds: of this epoch, this process and a copy that is wanted.
pub open spec fn still_admitted(s: ClusterView) -> spec_fn(AdmissionView) -> bool {
    |a: AdmissionView|
        a.epoch == s.committed.epoch && s.process_instances.contains_key(a.node_id)
            && s.process_instances[a.node_id] == a.process_instance_id
            && s.committed.duties().contains(a.place())
}

/// A repair that is still wanted.
pub open spec fn still_wanted(s: ClusterView) -> spec_fn(RepairView) -> bool {
    |r: RepairView| r.epoch == s.committed.epoch && s.committed.duties().contains(r.place())
}

/// A repair whose copy may have been lost.
pub open spec fn rechecked(r: RepairView, admissions: Seq<AdmissionView>) -> RepairView {
    if r.phase is Complete && !admitted_at(admissions, r.place()) {
        RepairView { phase: ReplicaRepairPhase::Pending, ..r }
    } else {
        r
    }
}

/// Repairs whose copies may have been lost.
pub open spec fn all_rechecked(
    repairs: Seq<RepairView>,
    admissions: Seq<AdmissionView>,
) -> Seq<RepairView> {
    Seq::new(repairs.len(), |i: int| rechecked(repairs[i], admissions))
}

/// Some repair is for this place.
pub open spec fn repaired_at(repairs: Seq<RepairView>, place: Place) -> bool {
    exists|i: int| 0 <= i < repairs.len() && (#[trigger] repairs[i]).place() == place
}

/// Repairs with one for each of the first `n` places.
pub open spec fn with_missing(
    repairs: Seq<RepairView>,
    epoch: u64,
    duties: Seq<Place>,
    n: nat,
) -> Seq<RepairView>
    decreases n,
{
    if n == 0 {
        repairs
    } else {
        let rest = with_missing(repairs, epoch, duties, (n - 1) as nat);
        if repaired_at(rest, duties[n - 1]) {
            rest
        } else {
            rest.push(fresh_repair(epoch, duties[n - 1]))
        }
    }
}

impl ClusterView {
    /// The admissions that still hold.
    pub open spec fn kept_admissions(self) -> Seq<AdmissionView> {
        sifted(self.replica_admissions, still_admitted(self))
    }

    /// The state in line with its topology: one repair for each copy that is wanted, and no
    /// admission that does not hold.
    pub open spec fn reconciled(self) -> ClusterView {
        let admissions = self.kept_admissions();
        let repairs = all_rechecked(
            sifted(self.replica_repairs, still_wanted(self)),
            admissions,
        );
        let duties = self.committed.duties();
        ClusterView {
            replica_admissions: admissions,
            replica_repairs: with_missing(repairs, self.committed.epoch, duties, duties.len()),
            ..self
        }
    }

    /// There are more copies to keep than a coordinator can follow.
    pub open spec fn overburdened(self) -> bool {
        self.committed.duties().len() > MAX_REPLICA_OBLIGATIONS
    }

    /// Why a state cannot be brought in line with its topology, if it cannot.
    pub open spec fn misplaced(self) -> Option<StateFault> {
        if self.committed.assignments.len() == 0 {
            Some(StateFault::Topology(TopologyError::NoAssignments))
        } else if self.overburdened() {
            Some(too_many_tasks())
        } else {
            None
        }
    }
}

/// What says that there are too many copies.
pub open spec fn too_many_tasks() -> StateFault {
    StateFault::Invalid(
        "topology exceeds the "@ + decimal_text(16_384) + " replica-task limit"@,
    )
}

pub proof fn lemma_missing(repairs: Seq<RepairView>, epoch: u64, duties: Seq<Place>, n: nat)
    requires
        n <= duties.len(),
    ensures
        ({
            let r = with_missing(repairs, epoch, duties, n);
            &&& r.len() >= repairs.len()
            &&& forall|i: int| 0 <= i < repairs.len() ==> r[i] == repairs[i]
            &&& forall|i: int|
                repairs.len() <= i < r.len() ==> (#[trigger] r[i]) == fresh_repair(
                    epoch,
                    r[i].place(),
                ) && duties.contains(r[i].place())
            &&& forall|k: int| 0 <= k < n ==> repaired_at(r, #[trigger] duties[k])
        }),
    decreases n,
{
    if n > 0 {
        lemma_missing(repairs, epoch, duties, (n - 1) as nat);
        let a = with_missing(repairs, epoch, duties, (n - 1) as nat);
        let b = with_missing(repairs, epoch, duties, n);
        let x = duties[n - 1];
        if !repaired_at(a, x) {
            let f = fresh_repair(epoch, x);
            assert(f.place() == x);
            assert(b == a.push(f));
            assert forall|k: int| 0 <= k < n implies repaired_at(b, #[trigger] duties[k]) by {
                if k < n - 1 {
                    let i = choose|i: int|
                        0 <= i < a.len() && (#[trigger] a[i]).place() == duties[k];
                    assert(b[i].place() == duties[k]);
                } else {
                    assert(b[a.len() as int].place() == duties[k]);
                }
            }
        }
    }
}

proof fn lemma_missing_unique(repairs: Seq<RepairView>, epoch: u64, duties: Seq<Place>, n: nat)
    requires
        n <= duties.len(),
        forall|i: int, j: int|
            0 <= i < j < repairs.len() ==> (#[trigger] repairs[i]).place() != (
            #[trigger] repairs[j]).place(),
    ensures
        ({
            let r = with_missing(repairs, epoch, duties, n);
            forall|i: int, j: int|
                0 <= i < j < r.len() ==> (#[trigger] r[i]).place() != (#[trigger] r[j]).place()
        }),
    decreases n,
{
    if n > 0 {
        lemma_missing_unique(repairs, epoch, duties, (n - 1) as nat);
        let a = with_missing(repairs, epoch, duties, (n - 1) as nat);
        let x = duties[n - 1];
        assert(fresh_repair(epoch, x).place() == x);
    }
}

proof fn lemma_sifted_unique(s: Seq<RepairView>, p: spec_fn(RepairView) -> bool)
    requires
        forall|i: int, j: int|
            0 <= i < j < s.len() ==> (#[trigger] s[i]).place() != (#[trigger] s[j]).place(),
    ensures
        ({
            let r = sifted(s, p);
            forall|i: int, j: int|
                0 <= i < j < r.len() ==> (#[trigger] r[i]).place() != (#[trigger] r[j]).place()
        }),
    decreases s.len(),
{
    if s.len() > 0 {
        let t = s.drop_last();
        lemma_sifted_unique(t, p);
        lemma_sifted(t, p);
        let a = sifted(t, p);
        let b = sifted(s, p);
        assert forall|i: int, j: int| 0 <= i < j < b.len() implies (#[trigger] b[i]).place() != (
        #[trigger] b[j]).place() by {
            assert(b[i] == a[i]);
            if j < a.len() {
                assert(b[j] == a[j]);
            } else {
                let k = choose|k: int| 0 <= k < t.len() && t[k] == a[i];
                assert(s[k] == a[i]);
                assert(s[k].place() != s[s.len() - 1].place());
            }
        }
    }
}

/// After it was brought in line, a state has exactly one repair for each copy that its
/// topology wants, and counts none as complete without an admission.
pub proof fn law_reconciled_states_cover_every_copy(s: ClusterView)
    requires
        forall|i: int, j: int|
            0 <= i < j < s.replica_repairs.len() ==> (#[trigger] s.replica_repairs[i]).place() != (
            #[trigger] s.replica_repairs[j]).place(),
    ensures
        forall|i: int|
            0 <= i < s.reconciled().replica_repairs.len() ==> #[trigger] repair_ok(
                s.reconciled(),
                i,
            ),
        forall|p: Place|
            s.committed.duties().contains(p) ==> #[trigger] repaired_at(
                s.reconciled().replica_repairs,
                p,
            ),
        forall|i: int|
            0 <= i < s.reconciled().replica_admissions.len() ==> (
            #[trigger] s.reconciled().replica_admissions[i]).epoch == s.committed.epoch
                && s.committed.duties().contains(s.reconciled().replica_admissions[i].place()),
{
    let admissions = s.kept_admissions();
    let wanted = sifted(s.replica_repairs, still_wanted(s));
    let repairs = all_rechecked(wanted, admissions);
    let duties = s.committed.duties();
    let epoch = s.committed.epoch;
    let r = s.reconciled();
    lemma_sifted(s.replica_admissions, still_admitted(s));
    lemma_sifted(s.replica_repairs, still_wanted(s));
    lemma_sifted_unique(s.replica_repairs, still_wanted(s));
    assert forall|i: int, j: int| 0 <= i < j < repairs.len() implies (
    #[trigger] repairs[i]).place() != (#[trigger] repairs[j]).place() by {
        assert(wanted[i].place() != wanted[j].place());
    }
    lemma_missing(repairs, epoch, duties, duties.len());
    lemma_missing_unique(repairs, epoch, duties, duties.len());
    assert forall|i: int| 0 <= i < r.replica_repairs.len() implies #[trigger] repair_ok(r, i) by {
        let x = r.replica_repairs[i];
        if i < repairs.len() {
            assert(x == repairs[i]);
            assert(still_wanted(s)(wanted[i]));
        }
        assert forall|j: int| 0 <= j < i implies (#[trigger] r.replica_repairs[j]).place()
            != x.place() by {}
    }
    assert forall|p: Place| s.committed.duties().contains(p) implies #[trigger] repaired_at(
        r.replica_repairs,
        p,
    ) by {
        let k = choose|k: int| 0 <= k < duties.len() && duties[k] == p;
        assert(repaired_at(r.replica_repairs, duties[k]));
    }
}

proof fn lemma_none_missing(repairs: Seq<RepairView>, epoch: u64, duties: Seq<Place>, n: nat)
    requires
        n <= duties.len(),
        forall|k: int| 0 <= k < n ==> repaired_at(repairs, #[trigger] duties[k]),
    ensures
        with_missing(repairs, epoch, duties, n) == repairs,
    decreases n,
{
    if n > 0 {
        lemma_none_missing(repairs, epoch, duties, (n - 1) as nat);
        assert(repaired_at(repairs, duties[n - 1]));
    }
}

proof fn lemma_sifted_all<T>(s: Seq<T>, p: spec_fn(T) -> bool)
    requires
        forall|i: int| 0 <= i < s.len() ==> p(#[trigger] s[i]),
    ensures
        sifted(s, p) == s,
    decreases s.len(),
{
    if s.len() > 0 {
        assert(p(s[s.len() - 1]));
        assert forall|i: int| 0 <= i < s.drop_last().len() implies p(
            #[trigger] s.drop_last()[i],
        ) by {
            assert(p(s[i]));
        }
        lemma_sifted_all(s.drop_last(), p);
        assert(s.drop_last().push(s.last()) =~= s);
    } else {
        assert(s =~= Seq::empty());
    }
}

/// Where a repair of a state that was brought in line comes from: it was there, at most reopened
/// because its copy was lost, or it is new.
pub open spec fn kept_reopened_or_new(s: ClusterView, r: RepairView) -> bool {
    ||| exists|j: int|
        0 <= j < s.replica_repairs.len() && (r == #[trigger] s.replica_repairs[j] || (
        s.replica_repairs[j].phase is Complete && r == (RepairView {
            phase: ReplicaRepairPhase::Pending,
            ..s.replica_repairs[j]
        })))
    ||| r == fresh_repair(s.committed.epoch, r.place())
}

/// Bringing a state in line touches nothing but admissions and repairs, drops admissions without
/// changing any, and changes repairs only by reopening those whose copy was lost.
pub proof fn law_reconciling_keeps_the_rest(s: ClusterView, i: int)
    ensures
        s.reconciled() == (ClusterView {
            replica_admissions: s.reconciled().replica_admissions,
            replica_repairs: s.reconciled().replica_repairs,
            ..s
        }),
        0 <= i < s.reconciled().replica_admissions.len() ==> s.replica_admissions.contains(
            s.reconciled().replica_admissions[i],
        ),
        0 <= i < s.reconciled().replica_repairs.len() ==> kept_reopened_or_new(
            s,
            s.reconciled().replica_repairs[i],
        ),
{
    let wanted = sifted(s.replica_repairs, still_wanted(s));
    let repairs = all_rechecked(wanted, s.kept_admissions());
    let duties = s.committed.duties();
    lemma_sifted(s.replica_admissions, still_admitted(s));
    lemma_sifted(s.replica_repairs, still_wanted(s));
    lemma_missing(repairs, s.committed.epoch, duties, duties.len());
    if 0 <= i < repairs.len() {
        let j = choose|j: int| 0 <= j < s.replica_repairs.len() && s.replica_repairs[j] == wanted[i];
        assert(repairs[i] == rechecked(s.replica_repairs[j], s.kept_admissions()));
    }
}

/// Bringing a state in line a second time changes nothing.
pub proof fn law_reconciling_again_changes_nothing(s: ClusterView)
    ensures
        s.reconciled().reconciled() == s.reconciled(),
        s.reconciled().misplaced() == s.misplaced(),
{
    let r = s.reconciled();
    let admissions = s.kept_admissions();
    let wanted = sifted(s.replica_repairs, still_wanted(s));
    let repairs = all_rechecked(wanted, admissions);
    let duties = s.committed.duties();
    let all = r.replica_repairs;
    lemma_sifted(s.replica_admissions, still_admitted(s));
    lemma_sifted(s.replica_repairs, still_wanted(s));
    lemma_missing(repairs, s.committed.epoch, duties, duties.len());
    assert forall|i: int| 0 <= i < admissions.len() implies still_admitted(r)(
        #[trigger] admissions[i],
    ) by {
        assert(still_admitted(s)(admissions[i]));
    }
    lemma_sifted_all(admissions, still_admitted(r));
    assert forall|i: int| 0 <= i < all.len() implies still_wanted(r)(#[trigger] all[i]) by {
        if i < repairs.len() {
            assert(all[i] == repairs[i]);
            assert(still_wanted(s)(wanted[i]));
        }
    }
    lemma_sifted_all(all, still_wanted(r));
    assert(all_rechecked(all, admissions) =~= all) by {
        assert forall|i: int| 0 <= i < all.len() implies rechecked(
            #[trigger] all[i],
            admissions,
        ) == all[i] by {
            if i < repairs.len() {
                assert(all[i] == repairs[i]);
                assert(repairs[i] == rechecked(wanted[i], admissions));
            }
        }
    }
    lemma_none_missing(all, s.committed.epoch, duties, duties.len());
    assert(r.reconciled() =~= r);
}

impl ClusterState {
    fn drop_stale_admissions(&mut self, desired: &SortedSet<PlaceKey>)
        requires
            forall|p: Place| #[trigger]
                desired@.contains(p) == old(self)@.committed.duties().contains(p),
        ensures
            final(self).committed == old(self).committed,
            final(self).active_change == old(self).active_change,
            final(self)@ == (ClusterView {
                replica_admissions: old(self)@.kept_admissions(),
                ..old(self)@
            }),
    {
        let ghost s0 = self@;
        let ghost a = self@.replica_admissions;
        let ghost p = still_admitted(s0);
        let epoch = self.committed.epoch;
        let mut kept: Vec<ReplicaAdmission> = Vec::new();
        let mut i: usize = 0;
        proof {
            assert(a.subrange(0, 0) =~= Seq::empty());
            assert(views(kept@) =~= Seq::empty());
        }
        while i < self.replica_admissions.len()
            invariant
                s0 == old(self)@,
                *self == *old(self),
                a == s0.replica_admissions,
                a.len() == self.replica_admissions@.len(),
                p == still_admitted(s0),
                epoch == s0.committed.epoch,
                forall|q: Place| #[trigger]
                    desired@.contains(q) == s0.committed.duties().contains(q),
                i <= a.len(),
                views(kept@) == sifted(a.subrange(0, i as int), p),
            decreases a.len() - i,
        {
            let admission = &self.replica_admissions[i];
            proof {
                assert(a[i as int] == admission@);
                lemma_sifted_prefix(a, i as int, p);
            }
            let current = match self.process_instances.get(&admission.node_id) {
                Some(instance) => same_text(
                    instance.as_str(),
                    admission.process_instance_id.as_str(),
                ),
                None => false,
            };
            if admission.epoch == epoch && current && desired.contains(&admission.place()) {
                let copied = admission.clone();
                proof {
                    lemma_views_push(kept@, copied);
                }
                kept.push(copied);
            }
            i = i + 1;
        }
        proof {
            assert(a.subrange(0, a.len() as int) =~= a);
        }
        self.replica_admissions = kept;
        proof {
            assert(self@ =~= ClusterView { replica_admissions: s0.kept_admissions(), ..s0 });
        }
    }

    fn admitted_places(&self) -> (r: SortedSet<PlaceKey>)
        ensures
            forall|p: Place| #[trigger]
                r@.contains(p) == admitted_at(self@.replica_admissions, p),
    {
        let ghost a = self@.replica_admissions;
        let mut r: SortedSet<PlaceKey> = SortedSet::new();
        let mut i: usize = 0;
        while i < self.replica_admissions.len()
            invariant
                a == self@.replica_admissions,
                a.len() == self.replica_admissions@.len(),
                i <= a.len(),
                forall|j: int| 0 <= j < i ==> r@.contains((#[trigger] a[j]).place()),
                forall|p: Place| #[trigger] r@.contains(p) ==> admitted_at(a, p),
            decreases a.len() - i,
        {
            proof {
                assert(a[i as int] == self.replica_admissions@[i as int]@);
                assert(admitted_at(a, a[i as int].place()));
            }
            let _ = r.insert(self.replica_admissions[i].place());
            i = i + 1;
        }
        r
    }

    fn recheck_repairs(&mut self, desired: &SortedSet<PlaceKey>)
        requires
            forall|p: Place| #[trigger]
                desired@.contains(p) == old(self)@.committed.duties().contains(p),
        ensures
            final(self).committed == old(self).committed,
            final(self).active_change == old(self).active_change,
            final(self)@ == (ClusterView {
                replica_repairs: all_rechecked(
                    sifted(old(self)@.replica_repairs, still_wanted(old(self)@)),
                    old(self)@.replica_admissions,
                ),
                ..old(self)@
            }),
    {
        let ghost s0 = self@;
        let ghost a = self@.replica_repairs;
        let ghost p = still_wanted(s0);
        let epoch = self.committed.epoch;
        let admitted = self.admitted_places();
        let mut kept: Vec<ReplicaRepair> = Vec::new();
        let mut i: usize = 0;
        proof {
            assert(a.subrange(0, 0) =~= Seq::empty());
        }
        while i < self.replica_repairs.len()
            invariant
                s0 == old(self)@,
                *self == *old(self),
                a == s0.replica_repairs,
                a.len() == self.replica_repairs@.len(),
                p == still_wanted(s0),
                epoch == s0.committed.epoch,
                forall|q: Place| #[trigger]
                    desired@.contains(q) == s0.committed.duties().contains(q),
                forall|q: Place| #[trigger]
                    admitted@.contains(q) == admitted_at(s0.replica_admissions, q),
                i <= a.len(),
                kept@.len() == sifted(a.subrange(0, i as int), p).len(),
                forall|j: int|
                    0 <= j < kept@.len() ==> (#[trigger] kept@[j])@ == rechecked(
                        sifted(a.subrange(0, i as int), p)[j],
                        s0.replica_admissions,
                    ),
            decreases a.len() - i,
        {
            let repair = &self.replica_repairs[i];
            proof {
                assert(a[i as int] == repair@);
                lemma_sifted_prefix(a, i as int, p);
            }
            let place = repair.place();
            if repair.epoch == epoch && desired.contains(&place) {
                let mut copied = repair.clone();
                if matches!(copied.phase, ReplicaRepairPhase::Complete) && !admitted.contains(
                    &place,
                ) {
                    copied.phase = ReplicaRepairPhase::Pending;
                }
                proof {
                    assert(copied@ =~= rechecked(repair@, s0.replica_admissions));
                }
                kept.push(copied);
            }
            i = i + 1;
        }
        proof {
            assert(a.subrange(0, a.len() as int) =~= a);
        }
        self.replica_repairs = kept;
        proof {
            let n = ClusterView {
                replica_repairs: all_rechecked(sifted(a, p), s0.replica_admissions),
                ..s0
            };
            assert(self@.replica_repairs =~= n.replica_repairs);
            assert(self@ =~= n);
        }
    }

    fn repaired_places(&self) -> (r: SortedSet<PlaceKey>)
        ensures
            forall|p: Place| #[trigger] r@.contains(p) == repaired_at(self@.replica_repairs, p),
    {
        let ghost a = self@.replica_repairs;
        let mut r: SortedSet<PlaceKey> = SortedSet::new();
        let mut i: usize = 0;
        while i < self.replica_repairs.len()
            invariant
                a == self@.replica_repairs,
                a.len() == self.replica_repairs@.len(),
                i <= a.len(),
                forall|j: int| 0 <= j < i ==> r@.contains((#[trigger] a[j]).place()),
                forall|p: Place| #[trigger] r@.contains(p) ==> repaired_at(a, p),
            decreases a.len() - i,
        {
            proof {
                assert(a[i as int] == self.replica_repairs@[i as int]@);
                assert(repaired_at(a, a[i as int].place()));
            }
            let _ = r.insert(self.replica_repairs[i].place());
            i = i + 1;
        }
        r
    }

    fn add_missing_repairs(&mut self, duties: &Vec<PlaceKey>)
        ensures
            final(self).committed == old(self).committed,
            final(self).active_change == old(self).active_change,
            final(self)@ == (ClusterView {
                replica_repairs: with_missing(
                    old(self)@.replica_repairs,
                    old(self)@.committed.epoch,
                    place_ids(duties@),
                    duties@.len(),
                ),
                ..old(self)@
            }),
    {
        let ghost s0 = self@;
        let ghost d = place_ids(duties@);
        let epoch = self.committed.epoch;
        let mut existing = self.repaired_places();
        let mut i: usize = 0;
        while i < duties.len()
            invariant
                s0 == old(self)@,
                d == place_ids(duties@),
                epoch == s0.committed.epoch,
                i <= duties@.len(),
                self.committed == old(self).committed,
                self.active_change == old(self).active_change,
                self@ == (ClusterView {
                    replica_repairs: with_missing(s0.replica_repairs, epoch, d, i as nat),
                    ..s0
                }),
                forall|p: Place| #[trigger]
                    existing@.contains(p) == repaired_at(self@.replica_repairs, p),
            decreases duties.len() - i,
        {
            let ghost before = self@.replica_repairs;
            proof {
                assert(d[i as int] == duties@[i as int].id());
            }
            if existing.insert(duties[i].copy()) {
                let place = duties[i].copy();
                let repair = ReplicaRepair {
                    epoch: epoch,
                    start_exclusive: place.0,
                    end_inclusive: (place.1).0,
                    owner_node_id: ((place.1).1).0,
                    node_id: ((place.1).1).1,
                    phase: ReplicaRepairPhase::Pending,
                    retry_count: 0,
                    next_attempt_unix_millis: 0,
                    last_error: String::new(),
                };
                proof {
                    assert(repair@ =~= fresh_repair(epoch, d[i as int]));
                    lemma_views_push(self.replica_repairs@, repair);
                }
                self.replica_repairs.push(repair);
                proof {
                    let after = self@.replica_repairs;
                    let f = fresh_repair(epoch, d[i as int]);
                    assert(after == before.push(f));
                    assert(f.place() == d[i as int]);
                    assert forall|p: Place| #[trigger] existing@.contains(p) == repaired_at(
                        after,
                        p,
                    ) by {
                        if repaired_at(before, p) {
                            let j = choose|j: int|
                                0 <= j < before.len() && (#[trigger] before[j]).place() == p;
                            assert(after[j].place() == p);
                        }
                        if p == d[i as int] {
                            assert(after[before.len() as int].place() == p);
                        }
                        if repaired_at(after, p) {
                            let j = choose|j: int|
                                0 <= j < after.len() && (#[trigger] after[j]).place() == p;
                            if j < before.len() {
                                assert(before[j].place() == p);
                            }
                        }
                    }
                }
            }
            i = i + 1;
        }
    }

    /// Brings the copies in line with the topology, if that assigns tokens and has no more
    /// copies than can be followed. Otherwise nothing changes.
    pub fn reconcile_replica_repairs(&mut self) -> (r: Result<(), RepositoryError>)
        ensures
            final(self).committed == old(self).committed,
            final(self).active_change == old(self).active_change,
            r matches Err(e) ==> e is InvalidState || e is Topology,
            fault_of(r) == old(self)@.misplaced(),
            r is Err ==> *final(self) == *old(self),
            final(self)@ == if r is Ok {
                old(self)@.reconciled()
            } else {
                old(self)@
            },
    {
        let ranges = match self.committed.derived_ranges() {
            Ok(ranges) => ranges,
            Err(e) => return Err(RepositoryError::Topology(e)),
        };
        let duties = list_duties(&ranges);
        if duties.len() > MAX_REPLICA_OBLIGATIONS {
            let message = around_number("topology exceeds the ", 16_384, " replica-task limit");
            return Err(RepositoryError::InvalidState(message));
        }
        let desired = place_set(&duties);
        self.drop_stale_admissions(&desired);
        self.recheck_repairs(&desired);
        self.add_missing_repairs(&duties);
        proof {
            assert(self@ =~= old(self)@.reconciled());
        }
        Ok(())
    }
}

} // verus!
