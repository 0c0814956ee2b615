//! When enough copies are there, who is asked whether it is alive, and when ranges merge.
use crate::activation::waits_for_copies;
use crate::cluster::ClusterView;
use crate::coverage::{part_of, parts};
use crate::failover_laws::{holds_copy, law_copies_count_where_they_were_verified};
use crate::merge::{candidate_from, guard_fault, lacks_follower, merges, naturally_merges, Stream};
use crate::merge::{holds_part, CandidateView};
use crate::migration::{ChangeView, MigrationPhase};
use crate::probes::{by_name, joined_by_name, noted, probes_from, silence_limit};
use crate::probes::ProbeView;
use crate::readiness::{admitted, caught_up, node_caught_up, status_of};
use crate::reconcile::lemma_sifted;
use crate::ring::{in_interval, RangeView};
use crate::status::{FollowerStatusView, RangeStatusView};
use crate::status_laws::lemma_tally_filter;
use crate::topology::{MemberView, SnapshotView, WriteAckPolicy};
use vstd::prelude::*;

verus! {

/// How many followers a range needs is what the policy, the guard on copies and the guard on healthy
/// followers ask for, whichever asks for most.
pub proof fn law_every_guard_counts(t: SnapshotView)
    requires
        t.desired_replication_factor >= 1,
    ensures
        ({
            let guard = t.write_availability_guard;
            let policy = if t.write_ack_policy == WriteAckPolicy::OwnerOnly {
                0int
            } else if t.write_ack_policy == WriteAckPolicy::FirstSuccessor {
                1int
            } else {
                t.desired_replication_factor - 1
            };
            &&& t.policy_followers() == policy
            &&& t.needed_followers() >= policy
            &&& t.needed_followers() + 1 >= guard.minimum_admitted_copies
            &&& t.needed_followers() >= guard.minimum_healthy_followers
            &&& t.needed_followers() == policy || t.needed_followers() + 1
                == guard.minimum_admitted_copies || t.needed_followers()
                == guard.minimum_healthy_followers
        }),
{
}

/// A topology waits for copies exactly if its owner alone may not take writes.
pub proof fn law_barriers_are_for_followers(t: SnapshotView)
    requires
        t.desired_replication_factor >= 2,
    ensures
        waits_for_copies(t) <==> t.needed_followers() >= 1,
{
}

/// A follower is admitted, has applied all that was sent, and is not too far behind.
pub open spec fn up_to_date(f: FollowerStatusView, max_lag: u64) -> bool {
    f.admitted && f.lag_known && f.lag_millis <= max_lag && f.stream_cursor == f.stream_head
}

/// A range is ready for new settings exactly if every admitted follower has applied all that was
/// sent, enough copies are admitted, enough are up to date, and those that the policy names are among
/// them.
pub proof fn law_ranges_get_ready(
    t: SnapshotView,
    range: RangeView,
    followers: Seq<FollowerStatusView>,
)
    ensures
        ({
            let guard = t.write_availability_guard;
            let max_lag = guard.max_replica_lag_millis;
            let names = range.follower_node_ids;
            t.range_ready(range, followers) <==> {
                &&& forall|i: int|
                    0 <= i < followers.len() && (#[trigger] followers[i]).admitted
                        ==> followers[i].lag_known && followers[i].stream_cursor
                        == followers[i].stream_head
                &&& 1 + followers.filter(|f: FollowerStatusView| f.admitted).len()
                    >= guard.minimum_admitted_copies
                &&& followers.filter(|f: FollowerStatusView| up_to_date(f, max_lag)).len()
                    >= guard.minimum_healthy_followers
                &&& t.write_ack_policy == WriteAckPolicy::FirstSuccessor && names.len() > 0
                    ==> has_current(followers, names[0], max_lag)
                &&& t.write_ack_policy == WriteAckPolicy::AllReplicas ==> names.len() + 1
                    >= t.desired_replication_factor && forall|k: int|
                    0 <= k < names.len() ==> has_current(followers, #[trigger] names[k], max_lag)
            }
        }),
{
    let guard = t.write_availability_guard;
    let max_lag = guard.max_replica_lag_millis;
    let p = |f: FollowerStatusView| f.admitted;
    let q = |f: FollowerStatusView| up_to_date(f, max_lag);
    let names = range.follower_node_ids;
    assert(admitted() =~= p);
    assert(caught_up(max_lag) =~= q);
    lemma_tally_filter(followers, p);
    lemma_tally_filter(followers, q);
    assert forall|node: Seq<char>| #[trigger] has_current(followers, node, max_lag)
        == node_caught_up(followers, node, max_lag) by {
        lemma_current(followers, node, max_lag);
    }
    if t.range_ready(range, followers) {
        assert forall|k: int| 0 <= k < t.barrier_followers(range) implies has_current(
            followers,
            #[trigger] names[k],
            max_lag,
        ) by {
            assert(node_caught_up(followers, names[k], max_lag));
        }
    }
}

/// A follower of this name is up to date.
pub open spec fn has_current(
    followers: Seq<FollowerStatusView>,
    node: Seq<char>,
    max_lag: u64,
) -> bool {
    exists|i: int|
        0 <= i < followers.len() && (#[trigger] followers[i]).node_id == node && up_to_date(
            followers[i],
            max_lag,
        )
}

proof fn lemma_current(followers: Seq<FollowerStatusView>, node: Seq<char>, max_lag: u64)
    ensures
        has_current(followers, node, max_lag) == node_caught_up(followers, node, max_lag),
{
    if has_current(followers, node, max_lag) {
        let i = choose|i: int|
            0 <= i < followers.len() && (#[trigger] followers[i]).node_id == node && up_to_date(
                followers[i],
                max_lag,
            );
        assert(caught_up(max_lag)(followers[i]));
    }
    if node_caught_up(followers, node, max_lag) {
        let i = choose|i: int|
            0 <= i < followers.len() && (#[trigger] followers[i]).node_id == node && caught_up(
                max_lag,
            )(followers[i]);
        assert(up_to_date(followers[i], max_lag));
    }
}

/// A status speaks of a range.
pub open spec fn speaks_of(s: RangeStatusView, range: RangeView) -> bool {
    s.start_exclusive == range.start_exclusive && s.end_inclusive == range.end_inclusive
        && s.owner_node_id == range.owner_node_id
}

proof fn lemma_status_of(ranges: Seq<RangeStatusView>, range: RangeView, i: nat)
    requires
        i <= ranges.len(),
    ensures
        match status_of(ranges, range, i) {
            Some(s) => exists|k: int|
                i <= k < ranges.len() && speaks_of(#[trigger] ranges[k], range) && s == ranges[k]
                    && forall|j: int| i <= j < k ==> !speaks_of(#[trigger] ranges[j], range),
            None => forall|k: int|
                i <= k < ranges.len() ==> !speaks_of(#[trigger] ranges[k], range),
        },
    decreases ranges.len() - i,
{
    if i < ranges.len() {
        if speaks_of(ranges[i as int], range) {
            assert(status_of(ranges, range, i) == Some(ranges[i as int]));
        } else {
            lemma_status_of(ranges, range, i + 1);
        }
    }
}

/// New settings may be published exactly if the status is of the epoch before and every range of the
/// target is told of and ready.
pub proof fn law_settings_wait_for_every_range(
    t: SnapshotView,
    epoch: u64,
    known: Seq<RangeStatusView>,
)
    requires
        t.epoch >= 1,
        t.assignments.len() > 0,
        forall|i: int, j: int, r: RangeView|
            0 <= i < j < known.len() && #[trigger] speaks_of(known[i], r)
                ==> !#[trigger] speaks_of(known[j], r),
    ensures
        t.ready_after(epoch, known) <==> epoch == t.epoch - 1 && forall|i: int|
            0 <= i < t.ranges().len() ==> told_ready(t, #[trigger] t.ranges()[i], known),
{
    assert forall|i: int| 0 <= i < t.ranges().len() implies t.known_ready(
        #[trigger] t.ranges()[i],
        known,
    ) == told_ready(t, t.ranges()[i], known) by {
        let range = t.ranges()[i];
        lemma_status_of(known, range, 0);
        if told_ready(t, range, known) {
            let k = choose|k: int|
                0 <= k < known.len() && speaks_of(#[trigger] known[k], range) && t.range_ready(
                    range,
                    known[k].followers,
                );
            assert(speaks_of(known[k], range));
            let s = status_of(known, range, 0)->0;
            let j = choose|j: int|
                0 <= j < known.len() && speaks_of(#[trigger] known[j], range) && s == known[j];
            if j < k {
                assert(speaks_of(known[j], range) && speaks_of(known[k], range));
            } else if k < j {
                assert(speaks_of(known[k], range) && speaks_of(known[j], range));
            }
        }
    }
    if t.ready_after(epoch, known) {
        assert forall|i: int| 0 <= i < t.ranges().len() implies told_ready(
            t,
            #[trigger] t.ranges()[i],
            known,
        ) by {
            assert(t.known_ready(t.ranges()[i], known));
        }
    }
    if forall|i: int|
        0 <= i < t.ranges().len() ==> told_ready(t, #[trigger] t.ranges()[i], known) {
        assert forall|i: int| 0 <= i < t.ranges().len() implies t.known_ready(
            #[trigger] t.ranges()[i],
            known,
        ) by {
            assert(told_ready(t, t.ranges()[i], known));
        }
    }
}

/// Some status speaks of a range and finds it ready.
pub open spec fn told_ready(t: SnapshotView, range: RangeView, known: Seq<RangeStatusView>) -> bool {
    exists|k: int|
        0 <= k < known.len() && speaks_of(#[trigger] known[k], range) && t.range_ready(
            range,
            known[k].followers,
        )
}

/// A copy counts for activation exactly if it was verified in the committed epoch for the process
/// that runs on its node.
pub proof fn law_activation_counts_verified_copies(
    s: ClusterView,
    range: RangeView,
    node: Seq<char>,
)
    ensures
        s.admits(range, node) <==> exists|i: int|
            0 <= i < s.replica_admissions.len() && {
                let a = #[trigger] s.replica_admissions[i];
                &&& a.epoch == s.committed.epoch
                &&& a.start_exclusive == range.start_exclusive
                &&& a.end_inclusive == range.end_inclusive
                &&& a.owner_node_id == range.owner_node_id
                &&& a.node_id == node
                &&& s.process_instances.contains_key(node)
                &&& s.process_instances[node] == a.process_instance_id
            },
{
    if s.admits(range, node) {
        let i = choose|i: int|
            0 <= i < s.replica_admissions.len() && s.vouches(
                #[trigger] s.replica_admissions[i],
                range,
                node,
            );
        assert(s.replica_admissions[i].epoch == s.committed.epoch);
    }
    if exists|i: int|
        0 <= i < s.replica_admissions.len() && {
            let a = #[trigger] s.replica_admissions[i];
            &&& a.epoch == s.committed.epoch
            &&& a.start_exclusive == range.start_exclusive
            &&& a.end_inclusive == range.end_inclusive
            &&& a.owner_node_id == range.owner_node_id
            &&& a.node_id == node
            &&& s.process_instances.contains_key(node)
            &&& s.process_instances[node] == a.process_instance_id
        } {
        let i = choose|i: int|
            0 <= i < s.replica_admissions.len() && {
                let a = #[trigger] s.replica_admissions[i];
                &&& a.epoch == s.committed.epoch
                &&& a.start_exclusive == range.start_exclusive
                &&& a.end_inclusive == range.end_inclusive
                &&& a.owner_node_id == range.owner_node_id
                &&& a.node_id == node
                &&& s.process_instances.contains_key(node)
                &&& s.process_instances[node] == a.process_instance_id
            };
        assert(s.vouches(s.replica_admissions[i], range, node));
    }
}

pub proof fn lemma_secured_filter(s: ClusterView, range: RangeView, chosen: Set<Stream>, n: nat)
    requires
        n <= range.follower_node_ids.len(),
    ensures
        s.secured_count(range, chosen, n) == range.follower_node_ids.take(n as int).filter(
            |node: Seq<char>|
                s.admits(range, node) || chosen.contains((range.owner_node_id, node)),
        ).len(),
    decreases n,
{
    reveal(Seq::filter);
    let p = |node: Seq<char>|
        s.admits(range, node) || chosen.contains((range.owner_node_id, node));
    if n > 0 {
        lemma_secured_filter(s, range, chosen, (n - 1) as nat);
        assert(range.follower_node_ids.take(n as int).drop_last()
            =~= range.follower_node_ids.take(n - 1));
    }
}

/// A range may be activated exactly if as many of its followers as are needed hold verified copies,
/// those that the policy names among them.
pub proof fn law_backed_ranges_are_activated(s: ClusterView, range: RangeView)
    ensures
        s.is_backed(range) <==> {
            &&& range.follower_node_ids.filter(|node: Seq<char>| s.admits(range, node)).len()
                >= s.committed.needed_followers()
            &&& forall|k: int|
                0 <= k < range.follower_node_ids.len() && k < s.committed.policy_followers()
                    ==> s.admits(range, #[trigger] range.follower_node_ids[k])
        },
{
    let f = range.follower_node_ids;
    let p = |node: Seq<char>| s.admits(range, node);
    let q = |node: Seq<char>|
        s.admits(range, node) || Set::<Stream>::empty().contains((range.owner_node_id, node));
    lemma_secured_filter(s, range, Set::empty(), f.len());
    assert(f.take(f.len() as int) =~= f);
    assert(p =~= q);
}

proof fn lemma_more_chosen(s: ClusterView, range: RangeView, a: Set<Stream>, b: Set<Stream>, n: nat)
    requires
        a.subset_of(b),
    ensures
        s.secured_count(range, a, n) <= s.secured_count(range, b, n),
    decreases n,
{
    if n > 0 {
        lemma_more_chosen(s, range, a, b, (n - 1) as nat);
    }
}

proof fn lemma_named(s: ClusterView, range: RangeView, chosen: Set<Stream>, n: nat)
    requires
        n <= range.follower_node_ids.len(),
    ensures
        chosen.subset_of(s.with_named(range, chosen, n)),
        forall|k: int|
            0 <= k < n ==> s.secured(
                range,
                s.with_named(range, chosen, n),
                #[trigger] range.follower_node_ids[k],
            ),
    decreases n,
{
    if n > 0 {
        lemma_named(s, range, chosen, (n - 1) as nat);
        let before = s.with_named(range, chosen, (n - 1) as nat);
        let after = s.with_named(range, chosen, n);
        assert(before.subset_of(after));
        assert forall|k: int| 0 <= k < n implies s.secured(
            range,
            after,
            #[trigger] range.follower_node_ids[k],
        ) by {
            if k < n - 1 {
                assert(s.secured(range, before, range.follower_node_ids[k]));
            }
        }
    }
}

pub proof fn lemma_best(s: ClusterView, range: RangeView, chosen: Set<Stream>, n: nat)
    requires
        n <= range.follower_node_ids.len(),
    ensures
        match s.best_follower(range, chosen, n) {
            Some(node) => range.follower_node_ids.take(n as int).contains(node) && !s.secured(
                range,
                chosen,
                node,
            ) && s.group_size(range.owner_node_id, node) > 0,
            None => true,
        },
    decreases n,
{
    if n > 0 {
        lemma_best(s, range, chosen, (n - 1) as nat);
        let head = range.follower_node_ids.take(n - 1);
        let all = range.follower_node_ids.take(n as int);
        let rest = s.best_follower(range, chosen, (n - 1) as nat);
        if rest is Some {
            let k = choose|k: int| 0 <= k < head.len() && head[k] == rest->0;
            assert(all[k] == rest->0);
        }
        assert(all[n - 1] == range.follower_node_ids[n - 1]);
    }
}

proof fn lemma_one_more(
    s: ClusterView,
    range: RangeView,
    chosen: Set<Stream>,
    node: Seq<char>,
    n: nat,
)
    requires
        n <= range.follower_node_ids.len(),
        !s.secured(range, chosen, node),
        range.follower_node_ids.take(n as int).contains(node),
    ensures
        s.secured_count(range, chosen.insert((range.owner_node_id, node)), n) >= s.secured_count(
            range,
            chosen,
            n,
        ) + 1,
    decreases n,
{
    let more = chosen.insert((range.owner_node_id, node));
    let all = range.follower_node_ids.take(n as int);
    let k = choose|k: int| 0 <= k < all.len() && all[k] == node;
    lemma_more_chosen(s, range, chosen, more, (n - 1) as nat);
    if k < n - 1 {
        let head = range.follower_node_ids.take(n - 1);
        assert(head[k] == node);
        lemma_one_more(s, range, chosen, node, (n - 1) as nat);
    }
}

proof fn lemma_missing_followers(
    s: ClusterView,
    range: RangeView,
    chosen: Set<Stream>,
    missing: nat,
)
    ensures
        s.with_missing_followers(range, chosen, missing) matches Some(more) ==> {
            let f = range.follower_node_ids.len();
            &&& chosen.subset_of(more)
            &&& s.secured_count(range, more, f) >= s.secured_count(range, chosen, f) + missing
        },
    decreases missing,
{
    let f = range.follower_node_ids.len();
    if missing > 0 {
        lemma_best(s, range, chosen, f);
        match s.best_follower(range, chosen, f) {
            None => {},
            Some(node) => {
                let next = chosen.insert((range.owner_node_id, node));
                lemma_one_more(s, range, chosen, node, f);
                lemma_missing_followers(s, range, next, (missing - 1) as nat);
            },
        }
    }
}

/// Range and choice together have enough copies, those that the policy names among them.
pub open spec fn would_do(s: ClusterView, range: RangeView, chosen: Set<Stream>) -> bool {
    let f = range.follower_node_ids;
    &&& f.filter(
        |node: Seq<char>| s.admits(range, node) || chosen.contains((range.owner_node_id, node)),
    ).len() >= s.committed.needed_followers()
    &&& forall|k: int|
        0 <= k < f.len() && k < s.committed.policy_followers() ==> s.admits(
            range,
            #[trigger] f[k],
        ) || chosen.contains((range.owner_node_id, f[k]))
}

proof fn lemma_would_do(s: ClusterView, range: RangeView, a: Set<Stream>, b: Set<Stream>)
    requires
        would_do(s, range, a),
        a.subset_of(b),
    ensures
        would_do(s, range, b),
{
    let f = range.follower_node_ids;
    lemma_secured_filter(s, range, a, f.len());
    lemma_secured_filter(s, range, b, f.len());
    lemma_more_chosen(s, range, a, b, f.len());
    assert(f.take(f.len() as int) =~= f);
}

/// The repairs that are chosen before an activation suffice: with them every range has the copies
/// that it needs, and those that the policy names.
pub proof fn law_chosen_repairs_suffice(s: ClusterView, ranges: Seq<RangeView>, n: nat)
    requires
        n <= ranges.len(),
        s.chosen_streams(ranges, n) is Some,
    ensures
        forall|i: int|
            0 <= i < n ==> would_do(s, #[trigger] ranges[i], s.chosen_streams(ranges, n)->0),
    decreases n,
{
    if n > 0 {
        law_chosen_repairs_suffice(s, ranges, (n - 1) as nat);
        let before = s.chosen_streams(ranges, (n - 1) as nat)->0;
        let after = s.chosen_streams(ranges, n)->0;
        let range = ranges[n - 1];
        let f = range.follower_node_ids;
        let policy = s.committed.policy_followers();
        let m: nat = if policy < f.len() {
            policy
        } else {
            f.len()
        };
        let named = s.with_named(range, before, m);
        lemma_named(s, range, before, m);
        let covered = s.secured_count(range, named, f.len());
        let needed = s.committed.needed_followers();
        let missing: nat = if covered < needed {
            (needed - covered) as nat
        } else {
            0
        };
        lemma_missing_followers(s, range, named, missing);
        assert(before.subset_of(after));
        lemma_secured_filter(s, range, after, f.len());
        assert(f.take(f.len() as int) =~= f);
        assert forall|k: int| 0 <= k < f.len() && k < policy implies s.admits(
            range,
            #[trigger] f[k],
        ) || after.contains((range.owner_node_id, f[k])) by {
            assert(s.secured(range, named, range.follower_node_ids[k]));
        }
        assert(would_do(s, range, after));
        assert forall|i: int| 0 <= i < n implies would_do(s, #[trigger] ranges[i], after) by {
            if i < n - 1 {
                lemma_would_do(s, ranges[i], before, after);
            }
        }
    }
}

/// A silent participant is given thirty seconds before its change is published, and five after that.
pub proof fn law_silence_is_borne(phase: MigrationPhase)
    ensures
        silence_limit(phase) == if phase == MigrationPhase::Published || phase
            == MigrationPhase::CleaningUp {
            5_000_000_000u64
        } else {
            30_000_000_000u64
        },
{
}

/// A node that was silent already is silent since then, another since now, and one that answers is
/// not. An outage is confirmed exactly if one of the silent ones was so for long enough; it is the
/// first of those.
pub proof fn law_outages_are_confirmed(
    since: Map<Seq<char>, u64>,
    results: Seq<(Seq<char>, bool)>,
    limit: u64,
    now: u64,
    n: nat,
)
    requires
        n <= results.len(),
        forall|i: int, j: int|
            0 <= i < j < results.len() ==> (#[trigger] results[i]).0 != (#[trigger] results[j]).0,
    ensures
        ({
            let r = noted(since, results, limit, now, n);
            &&& forall|i: int|
                0 <= i < n && !(#[trigger] results[i]).1 ==> r.since.contains_key(results[i].0)
                    && r.since[results[i].0] == if since.contains_key(results[i].0) {
                    since[results[i].0]
                } else {
                    now
                }
            &&& forall|i: int|
                0 <= i < n && (#[trigger] results[i]).1 ==> !r.since.contains_key(results[i].0)
            &&& forall|node: Seq<char>|
                (forall|i: int| 0 <= i < n ==> (#[trigger] results[i]).0 != node) ==> (
                #[trigger] r.since.contains_key(node) == since.contains_key(node)) && (
                since.contains_key(node) ==> r.since[node] == since[node])
            &&& r.confirmed is None <==> forall|i: int|
                0 <= i < n ==> !gone(since, #[trigger] results[i], limit, now)
            &&& r.confirmed matches Some(node) ==> exists|i: int|
                0 <= i < n && (#[trigger] results[i]).0 == node && gone(
                    since,
                    results[i],
                    limit,
                    now,
                ) && forall|j: int|
                    0 <= j < i ==> !gone(since, #[trigger] results[j], limit, now)
        }),
    decreases n,
{
    if n > 0 {
        law_outages_are_confirmed(since, results, limit, now, (n - 1) as nat);
        let before = noted(since, results, limit, now, (n - 1) as nat);
        let after = noted(since, results, limit, now, n);
        let last = results[n - 1];
        assert(forall|i: int| 0 <= i < n - 1 ==> (#[trigger] results[i]).0 != last.0);
        assert(before.since.contains_key(last.0) == since.contains_key(last.0));
        if before.confirmed is Some {
            let i = choose|i: int|
                0 <= i < n - 1 && (#[trigger] results[i]).0 == before.confirmed->0 && gone(
                    since,
                    results[i],
                    limit,
                    now,
                ) && forall|j: int| 0 <= j < i ==> !gone(since, #[trigger] results[j], limit, now);
            assert(results[i].0 == after.confirmed->0);
        } else if gone(since, last, limit, now) {
            assert(results[n - 1].0 == after.confirmed->0);
        }
        assert forall|node: Seq<char>|
            (forall|i: int| 0 <= i < n ==> (#[trigger] results[i]).0 != node) implies (
        #[trigger] after.since.contains_key(node) == since.contains_key(node)) && (
        since.contains_key(node) ==> after.since[node] == since[node]) by {
            assert(results[n - 1].0 != node);
            assert(before.since.contains_key(node) == since.contains_key(node));
        }
    }
}

/// A node did not answer now, nor for so long before.
pub open spec fn gone(
    since: Map<Seq<char>, u64>,
    result: (Seq<char>, bool),
    limit: u64,
    now: u64,
) -> bool {
    !result.1 && (if since.contains_key(result.0) {
        since[result.0]
    } else {
        now
    }) + limit <= now
}

/// At most 32 are asked at a time, one after the other going round, so that everybody's turn comes.
pub proof fn law_everybody_is_asked_in_turn(list: Seq<ProbeView>, cursor: nat, i: int)
    requires
        0 <= i < list.len(),
        i < 32,
    ensures
        probes_from(list, cursor).len() == if list.len() < 32 {
            list.len()
        } else {
            32
        },
        probes_from(list, cursor)[i] == list[(cursor + i) % (list.len() as int)],
{
}

proof fn lemma_by_name(members: Seq<MemberView>, n: nat)
    requires
        n <= members.len(),
    ensures
        forall|node: Seq<char>| #[trigger]
            by_name(members, n).contains_key(node) <==> exists|i: int|
                0 <= i < n && (#[trigger] members[i]).node_id == node,
    decreases n,
{
    if n > 0 {
        lemma_by_name(members, (n - 1) as nat);
        let before = by_name(members, (n - 1) as nat);
        assert forall|node: Seq<char>| #[trigger]
            by_name(members, n).contains_key(node) <==> exists|i: int|
                0 <= i < n && (#[trigger] members[i]).node_id == node by {
            if node == members[n - 1].node_id {
                assert(members[n - 1].node_id == node);
            }
            if before.contains_key(node) {
                let i = choose|i: int| 0 <= i < n - 1 && (#[trigger] members[i]).node_id == node;
                assert(members[i].node_id == node);
            }
        }
    }
}

proof fn lemma_joined(known: Map<Seq<char>, MemberView>, members: Seq<MemberView>, n: nat)
    requires
        n <= members.len(),
    ensures
        forall|node: Seq<char>| #[trigger]
            joined_by_name(known, members, n).contains_key(node) <==> known.contains_key(node)
                || exists|i: int| 0 <= i < n && (#[trigger] members[i]).node_id == node,
        forall|node: Seq<char>| #[trigger]
            known.contains_key(node) ==> joined_by_name(known, members, n)[node] == known[node],
    decreases n,
{
    if n > 0 {
        lemma_joined(known, members, (n - 1) as nat);
        let before = joined_by_name(known, members, (n - 1) as nat);
        assert forall|node: Seq<char>| #[trigger]
            joined_by_name(known, members, n).contains_key(node) <==> known.contains_key(node)
                || exists|i: int| 0 <= i < n && (#[trigger] members[i]).node_id == node by {
            if node == members[n - 1].node_id {
                assert(members[n - 1].node_id == node);
            }
            if before.contains_key(node) && !known.contains_key(node) {
                let i = choose|i: int| 0 <= i < n - 1 && (#[trigger] members[i]).node_id == node;
                assert(members[i].node_id == node);
            }
        }
        assert forall|node: Seq<char>| #[trigger] known.contains_key(
            node,
        ) implies joined_by_name(known, members, n)[node] == known[node] by {
            assert(before.contains_key(node));
        }
    }
}

/// Who takes part in a change: the members of its target and, until it cleans up, those of its base.
pub proof fn law_both_sides_take_part(c: ChangeView, node: Seq<char>)
    ensures
        c.participants().contains_key(node) <==> {
            ||| exists|i: int|
                0 <= i < c.target_topology.members.len() && (
                #[trigger] c.target_topology.members[i]).node_id == node
            ||| c.phase != MigrationPhase::CleaningUp && c.phase != MigrationPhase::Complete
                && c.base_topology is Some && exists|i: int|
                0 <= i < c.base_topology->0.members.len() && (
                #[trigger] c.base_topology->0.members[i]).node_id == node
        },
{
    let members = c.target_topology.members;
    lemma_by_name(members, members.len());
    if c.base_topology is Some {
        let old_members = c.base_topology->0.members;
        lemma_joined(by_name(members, members.len()), old_members, old_members.len());
    }
}

/// An old range lies in a new one: its last token does.
pub open spec fn lies_in(part: RangeView, range: RangeView) -> bool {
    in_interval(range.start_exclusive, range.end_inclusive, part.end_inclusive)
}

/// A range can grow together out of old ones: there are such, its owner owned each of them or was the
/// first to follow, and the followers that it needs owned or followed each.
pub open spec fn grows_together(
    before: Seq<RangeView>,
    range: RangeView,
    needed: nat,
) -> bool {
    &&& exists|part: RangeView| #[trigger] before.contains(part) && lies_in(part, range)
    &&& range.follower_node_ids.len() >= needed
    &&& forall|part: RangeView| #[trigger]
        before.contains(part) && lies_in(part, range) ==> {
            &&& part.owner_node_id == range.owner_node_id || (part.follower_node_ids.len() > 0
                && part.follower_node_ids[0] == range.owner_node_id)
            &&& forall|k: int|
                0 <= k < needed ==> part.owner_node_id == #[trigger] range.follower_node_ids[k]
                    || part.follower_node_ids.contains(range.follower_node_ids[k])
        }
}

pub proof fn lemma_parts_of(before: Seq<RangeView>, range: RangeView)
    ensures
        forall|part: RangeView| #[trigger]
            parts(before, range).contains(part) <==> before.contains(part) && lies_in(part, range),
{
    let p = part_of(range);
    let list = parts(before, range);
    lemma_sifted(before, p);
    assert forall|part: RangeView| #[trigger] list.contains(part) <==> before.contains(part)
        && lies_in(part, range) by {
        if list.contains(part) {
            let i = choose|i: int| 0 <= i < list.len() && list[i] == part;
            assert(p(list[i]));
            let j = choose|j: int| 0 <= j < before.len() && before[j] == list[i];
            assert(before[j] == part);
        }
        if before.contains(part) && lies_in(part, range) {
            let j = choose|j: int| 0 <= j < before.len() && before[j] == part;
            assert(p(before[j]));
            let i = choose|i: int| 0 <= i < list.len() && list[i] == before[j];
            assert(list[i] == part);
        }
    }
}

/// Ranges merge exactly where they grow together.
pub proof fn law_merging_ranges_grow_together(
    before: Seq<RangeView>,
    range: RangeView,
    needed: nat,
)
    ensures
        merges(before, range, needed) <==> grows_together(before, range, needed),
{
    let list = parts(before, range);
    lemma_parts_of(before, range);
    if merges(before, range, needed) {
        assert(list.contains(list[0]));
        assert(before.contains(list[0]));
        assert forall|part: RangeView| #[trigger]
            before.contains(part) && lies_in(part, range) implies {
            &&& part.owner_node_id == range.owner_node_id || (part.follower_node_ids.len() > 0
                && part.follower_node_ids[0] == range.owner_node_id)
            &&& forall|k: int|
                0 <= k < needed ==> part.owner_node_id == #[trigger] range.follower_node_ids[k]
                    || part.follower_node_ids.contains(range.follower_node_ids[k])
        } by {
            assert(list.contains(part));
            let i = choose|i: int| 0 <= i < list.len() && list[i] == part;
            assert(crate::merge::heirs_of(list[i], range, needed));
            assert forall|k: int| 0 <= k < needed implies part.owner_node_id
                == #[trigger] range.follower_node_ids[k] || part.follower_node_ids.contains(
                range.follower_node_ids[k],
            ) by {
                assert(holds_part(part, range.follower_node_ids[k]));
            }
        }
    }
    if grows_together(before, range, needed) {
        let part = choose|part: RangeView| #[trigger]
            before.contains(part) && lies_in(part, range);
        assert(list.contains(part));
        assert forall|i: int| 0 <= i < list.len() implies crate::merge::heirs_of(
            #[trigger] list[i],
            range,
            needed,
        ) by {
            assert(list.contains(list[i]));
            assert(before.contains(list[i]));
        }
    }
}

/// A smaller topology merges by itself exactly if it takes members away and changes nothing else of
/// them, keeps the settings, and each of its ranges grows together out of old ones.
pub proof fn law_removals_merge(before: SnapshotView, after: SnapshotView)
    ensures
        naturally_merges(before, after) <==> {
            &&& after.members.len() < before.members.len()
            &&& forall|i: int|
                0 <= i < after.members.len() ==> before.members.contains(
                    #[trigger] after.members[i],
                )
            &&& after.desired_replication_factor == before.desired_replication_factor
            &&& after.write_ack_policy == before.write_ack_policy
            &&& after.write_availability_guard == before.write_availability_guard
            &&& before.assignments.len() > 0
            &&& after.assignments.len() > 0
            &&& forall|i: int|
                0 <= i < after.ranges().len() ==> grows_together(
                    before.ranges(),
                    #[trigger] after.ranges()[i],
                    after.needed_followers(),
                )
        },
{
    assert forall|range: RangeView| #[trigger] merges(
        before.ranges(),
        range,
        after.needed_followers(),
    ) == grows_together(before.ranges(), range, after.needed_followers()) by {
        law_merging_ranges_grow_together(before.ranges(), range, after.needed_followers());
    }
    if naturally_merges(before, after) {
        assert forall|i: int| 0 <= i < after.ranges().len() implies grows_together(
            before.ranges(),
            #[trigger] after.ranges()[i],
            after.needed_followers(),
        ) by {
            assert(merges(before.ranges(), after.ranges()[i], after.needed_followers()));
        }
    }
}

/// A node can follow a merged range from the start exactly if it runs, is not fenced, and owned or
/// verifiably held each of the old ranges; its admission is for that range, node and process.
pub proof fn law_heirs_follow_what_they_held(
    s: ClusterView,
    epoch: u64,
    range: RangeView,
    node: Seq<char>,
)
    ensures
        ({
            let r = s.candidate(epoch, range, node);
            &&& r is Some <==> {
                &&& s.process_instances.contains_key(node)
                &&& !s.fenced_nodes.contains(node)
                &&& forall|part: RangeView| #[trigger]
                    s.committed.ranges().contains(part) && lies_in(part, range)
                        ==> part.owner_node_id == node || holds_copy(s, part, node)
            }
            &&& r matches Some(c) ==> {
                &&& c.admission.epoch == epoch
                &&& c.admission.start_exclusive == range.start_exclusive
                &&& c.admission.end_inclusive == range.end_inclusive
                &&& c.admission.owner_node_id == range.owner_node_id
                &&& c.admission.node_id == node
                &&& c.admission.process_instance_id == s.process_instances[node]
            }
        }),
{
    let list = parts(s.committed.ranges(), range);
    lemma_parts_of(s.committed.ranges(), range);
    if s.holds_all(list, node, list.len()) {
        assert forall|part: RangeView| #[trigger]
            s.committed.ranges().contains(part) && lies_in(part, range) implies part.owner_node_id
            == node || holds_copy(s, part, node) by {
            assert(list.contains(part));
            let i = choose|i: int| 0 <= i < list.len() && list[i] == part;
            assert(list[i].owner_node_id == node || s.covers(list[i], node));
            law_copies_count_where_they_were_verified(s, part, node);
        }
    }
    if forall|part: RangeView| #[trigger]
        s.committed.ranges().contains(part) && lies_in(part, range) ==> part.owner_node_id == node
            || holds_copy(s, part, node) {
        assert forall|i: int| 0 <= i < list.len() implies (#[trigger] list[i]).owner_node_id
            == node || s.covers(list[i], node) by {
            assert(list.contains(list[i]));
            assert(s.committed.ranges().contains(list[i]));
            law_copies_count_where_they_were_verified(s, list[i], node);
        }
    }
}

/// Some candidate is for a range and a node.
pub open spec fn has_candidate(
    list: Seq<CandidateView>,
    range: RangeView,
    node: Seq<char>,
) -> bool {
    exists|i: int|
        0 <= i < list.len() && (#[trigger] list[i]).admission.start_exclusive
            == range.start_exclusive && list[i].admission.end_inclusive == range.end_inclusive
            && list[i].admission.node_id == node
}

proof fn lemma_candidate_from(list: Seq<CandidateView>, range: RangeView, node: Seq<char>, i: nat)
    requires
        i <= list.len(),
    ensures
        candidate_from(list, range, node, i) is Some <==> exists|k: int|
            i <= k < list.len() && (#[trigger] list[k]).admission.start_exclusive
                == range.start_exclusive && list[k].admission.end_inclusive == range.end_inclusive
                && list[k].admission.node_id == node,
    decreases list.len() - i,
{
    if i < list.len() {
        lemma_candidate_from(list, range, node, i + 1);
        if candidate_from(list, range, node, i + 1) is Some {
            let k = choose|k: int|
                i + 1 <= k < list.len() && (#[trigger] list[k]).admission.start_exclusive
                    == range.start_exclusive && list[k].admission.end_inclusive
                    == range.end_inclusive && list[k].admission.node_id == node;
            assert(list[k].admission.node_id == node);
        }
    }
}

proof fn lemma_lacks(list: Seq<CandidateView>, range: RangeView, needed: nat, k: nat)
    ensures
        lacks_follower(list, range, needed, k) <==> exists|j: int|
            k <= j < needed && !has_candidate(list, range, #[trigger] range.follower_node_ids[j]),
    decreases needed - k,
{
    if k < needed {
        lemma_lacks(list, range, needed, k + 1);
        lemma_candidate_from(list, range, range.follower_node_ids[k as int], 0);
        if lacks_follower(list, range, needed, k + 1) {
            let j = choose|j: int|
                k + 1 <= j < needed && !has_candidate(
                    list,
                    range,
                    #[trigger] range.follower_node_ids[j],
                );
            assert(!has_candidate(list, range, range.follower_node_ids[j]));
        }
    }
}

/// Merged ranges satisfy their guard exactly if each has the followers that it needs and every one of
/// them can follow from the start.
pub proof fn law_merged_ranges_keep_their_guard(
    list: Seq<CandidateView>,
    ranges: Seq<RangeView>,
    needed: nat,
    i: nat,
)
    requires
        i <= ranges.len(),
    ensures
        guard_fault(list, ranges, needed, i) is None <==> forall|k: int|
            i <= k < ranges.len() ==> well_followed(list, #[trigger] ranges[k], needed),
    decreases ranges.len() - i,
{
    if i < ranges.len() {
        law_merged_ranges_keep_their_guard(list, ranges, needed, i + 1);
        lemma_lacks(list, ranges[i as int], needed, 0);
    }
}

/// A range has the followers that it needs, and each is a candidate.
pub open spec fn well_followed(list: Seq<CandidateView>, range: RangeView, needed: nat) -> bool {
    &&& range.follower_node_ids.len() >= needed
    &&& forall|j: int|
        0 <= j < needed ==> has_candidate(list, range, #[trigger] range.follower_node_ids[j])
}

} // verus!
