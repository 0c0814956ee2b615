//! What trials measure, which of them can be run, and what their data tell apart.
use crate::bytes::{be64, framed};
use crate::encoding_laws::{
    collide, fits, lemma_be64_tells, lemma_cut, lemma_digest_tells, lemma_group3, lemma_read_framed,
    lemma_utf8_tells,
};
use crate::errors::{backpressure, temporary, uncertain, ErrorCode};
use crate::experiment::{
    blocks, config_fault, every_third, moving, stirred, stirred_times, tree_bytes, trial_value,
    value_seed, ExperimentConfig, ExperimentMode,
};
use crate::hashing::blake3_hex;
use crate::migration::MigrationPhase;
use crate::status::RangeStatusView;
use crate::topology::{SnapshotView, WriteAckPolicy};
use crate::trial::{
    activity_outcome, all_copied, losses, number_order, overlap_outcome, owned_keys, percentile,
    survives, trial_plan, FailoverWatch, OutageTracker, Survival, TrialStep,
};
use crate::waits::{after_look, WaitView};
use vstd::prelude::*;
use vstd::seq_lib::*;
use vstd::utf8::encode_utf8;

verus! {

/// Samples in order ascend, and are the samples.
pub proof fn law_samples_are_put_in_order(samples: Seq<u64>)
    ensures
        ({
            let sorted = samples.sort_by(number_order());
            &&& sorted.len() == samples.len()
            &&& sorted.to_multiset() == samples.to_multiset()
            &&& forall|i: int, j: int|
                0 <= i < j < sorted.len() ==> #[trigger] sorted[i] <= #[trigger] sorted[j]
        }),
{
    assert(vstd::relations::total_ordering(number_order()));
    samples.lemma_sort_by_ensures(number_order());
    let sorted = samples.sort_by(number_order());
    assert forall|i: int, j: int| 0 <= i < j < sorted.len() implies #[trigger] sorted[i]
        <= #[trigger] sorted[j] by {
        assert(number_order()(sorted[i], sorted[j]));
    }
    sorted.to_multiset_ensures();
    samples.to_multiset_ensures();
}

/// A percentile is a sample that stands that far in order: what comes earlier is no larger, and what
/// comes later no smaller; a higher percentile is no smaller.
pub proof fn law_percentiles_stand_in_order(sorted: Seq<u64>, p: nat, q: nat, i: int)
    requires
        sorted.len() > 0,
        p <= q <= 100,
        forall|i: int, j: int|
            0 <= i < j < sorted.len() ==> #[trigger] sorted[i] <= #[trigger] sorted[j],
        0 <= i < sorted.len(),
    ensures
        percentile(sorted, p) <= percentile(sorted, q) <= sorted.last(),
        100 * i <= (sorted.len() - 1) * p ==> sorted[i] <= percentile(sorted, p),
        100 * i >= (sorted.len() - 1) * p ==> sorted[i] >= percentile(sorted, p),
        percentile(sorted, 100) == sorted.last(),
{
    let n = sorted.len() - 1;
    let a = n * p / 100;
    let b = n * q / 100;
    assert(0 <= n * p <= n * q <= n * 100) by (nonlinear_arith)
        requires
            0 <= p <= q <= 100,
            n >= 0,
    ;
    assert(0 <= a <= b <= n);
    assert(n * 100 / 100 == n);
    if a < b {
        assert(sorted[a] <= sorted[b]);
    }
    if b < n {
        assert(sorted[b] <= sorted[n]);
    }
    if i < a {
        assert(sorted[i] <= sorted[a]);
    } else if i > a {
        assert(sorted[a] <= sorted[i]);
    }
}

/// All copies are there exactly if ranges are told of and each has as many live copies as are
/// desired, none under repair and every follower healthy.
pub proof fn law_all_copies_are_waited_for(ranges: Seq<RangeStatusView>, desired_rf: u32)
    ensures
        all_copied(ranges, desired_rf) <==> ranges.len() > 0 && forall|i: int|
            0 <= i < ranges.len() ==> {
                let r = #[trigger] ranges[i];
                &&& r.live_rf == desired_rf
                &&& !r.repairing
                &&& forall|k: int|
                    0 <= k < r.followers.len() ==> (#[trigger] r.followers[k]).healthy
            },
{
    if all_copied(ranges, desired_rf) {
        assert forall|i: int| 0 <= i < ranges.len() implies {
            let r = #[trigger] ranges[i];
            &&& r.live_rf == desired_rf
            &&& !r.repairing
            &&& forall|k: int|
                0 <= k < r.followers.len() ==> (#[trigger] r.followers[k]).healthy
        } by {
            assert(crate::trial::fully_copied(ranges[i], desired_rf));
        }
    }
    if ranges.len() > 0 && forall|i: int|
        0 <= i < ranges.len() ==> {
            let r = #[trigger] ranges[i];
            &&& r.live_rf == desired_rf
            &&& !r.repairing
            &&& forall|k: int|
                0 <= k < r.followers.len() ==> (#[trigger] r.followers[k]).healthy
        } {
        assert forall|i: int| 0 <= i < ranges.len() implies crate::trial::fully_copied(
            #[trigger] ranges[i],
            desired_rf,
        ) by {
            assert(ranges[i].live_rf == desired_rf);
        }
    }
}

/// A wait is over as soon as what it waits for is there, even late; it goes on until the deadline and
/// not longer.
pub proof fn law_waits_end(done: bool, now: u64, deadline: u64, late: Seq<char>)
    ensures
        after_look(done, now, deadline, late) == WaitView::Done <==> done,
        after_look(done, now, deadline, late) == WaitView::Wait <==> !done && now < deadline,
        !done && now >= deadline ==> after_look(done, now, deadline, late) == WaitView::GiveUp(
            late,
        ),
{
}

/// The data of a change move.
pub open spec fn data_move(phase: MigrationPhase) -> bool {
    phase == MigrationPhase::CopyingSnapshot || phase == MigrationPhase::ReplayingChangelog || phase
        == MigrationPhase::PausingWrites || phase == MigrationPhase::Verifying || phase
        == MigrationPhase::ReadyToPublish
}

/// Writes run beside a migration exactly if it is seen moving while they succeed; a trial waits while
/// that may still come, for 2,000 looks.
pub proof fn law_overlaps_are_seen(
    phase: Option<MigrationPhase>,
    mutations: u64,
    finished: bool,
    looks: u32,
)
    ensures
        ({
            let moves = phase is Some && data_move(phase->0);
            let early = phase is None || phase->0 == MigrationPhase::Planned || phase->0
                == MigrationPhase::Resetting;
            &&& activity_outcome(phase, looks) is None <==> moves
            &&& activity_outcome(phase, looks) == Some(None::<Seq<char>>) <==> early && looks
                < 2_000
            &&& overlap_outcome(phase, mutations, finished, looks) is None <==> moves && mutations
                > 0
            &&& overlap_outcome(phase, mutations, finished, looks) == Some(None::<Seq<char>>) <==> (
            early || (moves && mutations == 0)) && !(finished && mutations == 0) && looks < 2_000
        }),
{
}

/// The sampled keys are owned by the node, in order, and all that there are until there are 128.
pub proof fn law_owned_keys_are_sampled(t: SnapshotView, node: Seq<char>, n: nat)
    requires
        n <= u64::MAX,
    ensures
        ({
            let keys = owned_keys(t, node, n);
            &&& keys.len() <= 128
            &&& forall|i: int|
                0 <= i < keys.len() ==> (#[trigger] keys[i]) < n && t.owner_id(
                    t.key_token(be64(keys[i])),
                ) == node
            &&& forall|k: u64|
                k < n && keys.len() < 128 && #[trigger] t.owner_id(t.key_token(be64(k))) == node
                    ==> keys.contains(k)
        }),
    decreases n,
{
    if n > 0 {
        law_owned_keys_are_sampled(t, node, (n - 1) as nat);
        let before = owned_keys(t, node, (n - 1) as nat);
        let keys = owned_keys(t, node, n);
        assert forall|k: u64|
            k < n && keys.len() < 128 && #[trigger] t.owner_id(t.key_token(be64(k)))
                == node implies keys.contains(k) by {
            if k < n - 1 {
                assert(before.contains(k));
                let i = choose|i: int| 0 <= i < before.len() && before[i] == k;
                assert(keys[i] == k);
            } else {
                assert(keys[before.len() as int] == k);
            }
        }
    }
}

/// A key moves exactly if its owner changes.
pub proof fn law_moving_keys_change_owners(base: SnapshotView, target: SnapshotView, n: nat, k: u64)
    requires
        n <= u64::MAX,
    ensures
        moving(base, target, n).contains(k) <==> k < n && base.owner_id(base.key_token(be64(k)))
            != target.owner_id(target.key_token(be64(k))),
    decreases n,
{
    if n > 0 {
        law_moving_keys_change_owners(base, target, (n - 1) as nat, k);
        let before = moving(base, target, (n - 1) as nat);
        let after = moving(base, target, n);
        let key = be64((n - 1) as u64);
        if before.contains(k) {
            let i = choose|i: int| 0 <= i < before.len() && before[i] == k;
            assert(after[i] == k);
        }
        if after.contains(k) {
            let i = choose|i: int| 0 <= i < after.len() && after[i] == k;
            if i < before.len() {
                assert(before[i] == k);
            }
        }
        if base.owner_id(base.key_token(key)) != target.owner_id(target.key_token(key)) {
            assert(after[before.len() as int] == (n - 1) as u64);
        }
    }
}

/// Every key is in exactly one of three cohorts, by its place.
pub proof fn law_cohorts_part_the_keys(all: Seq<u64>, which: nat, n: nat, i: int)
    requires
        which < 3,
        n <= all.len(),
        all.no_duplicates(),
        0 <= i < n,
    ensures
        every_third(all, which, n).contains(all[i]) <==> i % 3 == which,
    decreases n,
{
    let before = every_third(all, which, (n - 1) as nat);
    let after = every_third(all, which, n);
    lemma_thirds_of(all, which, (n - 1) as nat);
    if i == n - 1 {
        if i % 3 == which {
            assert(after[before.len() as int] == all[i]);
        } else if after.contains(all[i]) {
            let k = choose|k: int| 0 <= k < before.len() && before[k] == all[i];
            let head = all.take(n - 1);
            assert(head.contains(before[k]));
            let j = choose|j: int| 0 <= j < head.len() && head[j] == before[k];
            assert(all[j] == all[i]);
        }
    } else {
        law_cohorts_part_the_keys(all, which, (n - 1) as nat, i);
        if before.contains(all[i]) {
            let k = choose|k: int| 0 <= k < before.len() && before[k] == all[i];
            assert(after[k] == all[i]);
        }
        if after.contains(all[i]) {
            let k = choose|k: int| 0 <= k < after.len() && after[k] == all[i];
            if k < before.len() {
                assert(before[k] == all[i]);
            } else {
                assert(all[n - 1] == all[i]);
            }
        }
    }
}

proof fn lemma_thirds_of(all: Seq<u64>, which: nat, n: nat)
    requires
        n <= all.len(),
    ensures
        forall|k: int|
            0 <= k < every_third(all, which, n).len() ==> all.take(n as int).contains(
                #[trigger] every_third(all, which, n)[k],
            ),
    decreases n,
{
    if n > 0 {
        lemma_thirds_of(all, which, (n - 1) as nat);
        let before = every_third(all, which, (n - 1) as nat);
        let after = every_third(all, which, n);
        let head = all.take(n - 1);
        let whole = all.take(n as int);
        assert forall|k: int| 0 <= k < after.len() implies whole.contains(#[trigger] after[k]) by {
            if k < before.len() {
                assert(head.contains(before[k]));
                let j = choose|j: int| 0 <= j < head.len() && head[j] == before[k];
                assert(whole[j] == after[k]);
            } else {
                assert(whole[n - 1] == after[k]);
            }
        }
    }
}

/// An outage lasts from the first failed read to the next that succeeds; the longest one counts.
pub proof fn law_outages_are_measured(o: OutageTracker, now: u64)
    requires
        o.unavailable < u64::MAX,
        o.since matches Some(t) ==> t <= now,
    ensures
        ({
            let lost = o.after(false, now);
            let found = o.after(true, now);
            &&& lost.since == if o.since is Some {
                o.since
            } else {
                Some(now)
            }
            &&& lost.unavailable == o.unavailable + 1
            &&& lost.longest == o.longest
            &&& found.since is None
            &&& found.unavailable == o.unavailable
            &&& found.longest >= o.longest
            &&& o.since matches Some(t) ==> found.longest >= now - t
            &&& found.longest == o.longest || (o.since is Some && found.longest == now - o.since->0)
            &&& o.closed(now) == found
        }),
{
}

/// A key has survived exactly if it has its acknowledged value; the last one is lost if it has only
/// the value before, and any other value is wrong.
pub proof fn law_acknowledged_values_survive(
    key: u64,
    tail_key: u64,
    tail_length: nat,
    value_bytes: nat,
    value: Seq<u8>,
)
    ensures
        ({
            let r = survives(key, tail_key, tail_length, value_bytes, value);
            let first = value == trial_value(key, 0, value_bytes);
            let last = value == trial_value(key, 1, tail_length);
            &&& key != tail_key ==> r == if first {
                Some(Survival::Preserved)
            } else {
                None
            }
            &&& key == tail_key ==> r == if last {
                Some(Survival::Preserved)
            } else if first {
                Some(Survival::Lost)
            } else {
                None
            }
        }),
{
}

/// As many keys are lost as were found lost.
pub proof fn law_losses_are_counted(found: Seq<Survival>, n: nat)
    requires
        n <= found.len(),
    ensures
        losses(found, n) == found.take(n as int).filter(|s: Survival| s == Survival::Lost).len(),
    decreases n,
{
    reveal(Seq::filter);
    if n > 0 {
        law_losses_are_counted(found, (n - 1) as nat);
        assert(found.take(n as int).drop_last() =~= found.take(n - 1));
    }
}

/// Every trial starts a cluster with all its copies, sets a policy that is not the default, and writes
/// and verifies its data before it measures; a failover replaces the owner that it kills, and a
/// correctness trial verifies the data again after growing and after shrinking.
pub proof fn law_trials_verify_their_data(mode: ExperimentMode, policy: WriteAckPolicy)
    ensures
        ({
            let plan = trial_plan(mode, policy);
            let at = if policy == WriteAckPolicy::OwnerOnly {
                2int
            } else {
                3int
            };
            &&& plan[0] == TrialStep::StartCluster
            &&& plan[1] == TrialStep::AwaitCopies
            &&& policy != WriteAckPolicy::OwnerOnly ==> plan[2] == TrialStep::SetPolicy
            &&& plan[at] == TrialStep::WriteDataset
            &&& plan[at + 1] == TrialStep::VerifyDataset
            &&& plan[at + 2] == TrialStep::SampleClientLatency
            &&& plan[at + 3] == TrialStep::SampleOwnerLatency
            &&& mode == ExperimentMode::Performance ==> plan.len() == at + 5 && plan[at + 4]
                == TrialStep::Conclude
            &&& mode == ExperimentMode::Correctness ==> {
                &&& plan.len() == at + 12
                &&& plan[at + 4] == TrialStep::ScaleOut
                &&& plan[at + 6] == TrialStep::VerifyDataset
                &&& plan[at + 7] == TrialStep::ScaleIn
                &&& plan[at + 10] == TrialStep::VerifyDataset
                &&& plan[at + 11] == TrialStep::Conclude
            }
            &&& mode == ExperimentMode::Availability ==> {
                &&& plan.len() == at + 12
                &&& plan[at + 4] == TrialStep::SampleOwnedKeys
                &&& plan[at + 5] == TrialStep::WriteTail
                &&& plan[at + 6] == TrialStep::KillOwner
                &&& plan[at + 7] == TrialStep::AwaitFailover
                &&& plan[at + 8] == TrialStep::CheckSurvival
                &&& plan[at + 10] == TrialStep::ReplaceOwner
                &&& plan[at + 11] == TrialStep::AwaitCopies
            }
        }),
{
}

/// A trial can be run exactly if it has data, time and room, its first members can hold the copies
/// that it asks for, and a failover has the four nodes and three copies that it needs.
pub proof fn law_possible_trials_are_run(c: ExperimentConfig)
    ensures
        config_fault(c) is None <==> {
            &&& c.node_count >= 2
            &&& c.mode == ExperimentMode::Availability ==> c.node_count == 4
                && c.desired_replication_factor == 3 && c.write_ack_policy
                != WriteAckPolicy::AllReplicas
            &&& c.mode == ExperimentMode::Correctness ==> c.node_count - 1
                >= c.desired_replication_factor
            &&& c.mode == ExperimentMode::Performance ==> c.node_count
                >= c.desired_replication_factor
            &&& 1 <= c.minimum_admitted_copies <= c.desired_replication_factor
            &&& c.minimum_healthy_followers < c.desired_replication_factor
            &&& 1 <= c.key_count <= usize::MAX
            &&& c.concurrency >= 1
            &&& c.range_move_concurrency >= 1
            &&& 1 <= c.value_bytes <= 8_388_608
            &&& c.virtual_nodes >= 1
            &&& c.operation_timeout_ms >= 1
            &&& c.migration_timeout_ms >= 1
        },
{
}

proof fn lemma_seeds_tell(a: u64, b: u64, round: u64)
    requires
        value_seed(a, round) == value_seed(b, round),
    ensures
        a == b,
{
    let r = (round << 17) | (round >> 47);
    assert(a == b) by (bit_vector)
        requires
            a ^ r ^ 0x9e37_79b9_7f4a_7c15u64 == b ^ r ^ 0x9e37_79b9_7f4a_7c15u64,
    ;
}

proof fn lemma_rounds_tell(key: u64, a: u64, b: u64)
    requires
        value_seed(key, a) == value_seed(key, b),
    ensures
        a == b,
{
    assert(a == b) by (bit_vector)
        requires
            key ^ ((a << 17) | (a >> 47)) ^ 0x9e37_79b9_7f4a_7c15u64 == key ^ ((b << 17) | (b
                >> 47)) ^ 0x9e37_79b9_7f4a_7c15u64,
    ;
}

proof fn lemma_stirred_tells(a: u64, b: u64)
    requires
        stirred(a) == stirred(b),
    ensures
        a == b,
{
    let a1 = a ^ (a >> 12);
    let b1 = b ^ (b >> 12);
    let a2 = a1 ^ (a1 << 25);
    let b2 = b1 ^ (b1 << 25);
    assert(a2 == b2) by (bit_vector)
        requires
            a2 ^ (a2 >> 27) == b2 ^ (b2 >> 27),
    ;
    assert(a1 == b1) by (bit_vector)
        requires
            a1 ^ (a1 << 25) == b1 ^ (b1 << 25),
    ;
    assert(a == b) by (bit_vector)
        requires
            a ^ (a >> 12) == b ^ (b >> 12),
    ;
}

/// The factor is odd, so that it has an inverse.
proof fn lemma_product_tells(a: u64, b: u64)
    requires
        a.wrapping_mul(0x2545_f491_4f6c_dd1d) == b.wrapping_mul(0x2545_f491_4f6c_dd1d),
    ensures
        a == b,
{
    let m: int = 0x1_0000_0000_0000_0000;
    let c: int = 0x2545_f491_4f6c_dd1d;
    let d: int = 0x5907_1d96_d81e_cd35;
    let k: int = 934_034_299_265_436_267;
    assert(c * d == 1 + k * m);
    lemma_undone(a as int, c, d, k, m);
    lemma_undone(b as int, c, d, k, m);
    assert(a.wrapping_mul(0x2545_f491_4f6c_dd1d) == (a as int * c) % m);
    assert(b.wrapping_mul(0x2545_f491_4f6c_dd1d) == (b as int * c) % m);
}

proof fn lemma_undone(x: int, c: int, d: int, k: int, m: int)
    requires
        0 <= x < m,
        c * d == 1 + k * m,
    ensures
        (((x * c) % m) * d) % m == x,
{
    vstd::arithmetic::div_mod::lemma_mul_mod_noop_left(x * c, d, m);
    assert(x * c * d == m * (x * k) + x) by (nonlinear_arith)
        requires
            c * d == 1 + k * m,
    ;
    vstd::arithmetic::div_mod::lemma_mod_multiples_vanish(x * k, x, m);
    vstd::arithmetic::div_mod::lemma_small_mod(x as nat, m as nat);
}

proof fn lemma_blocks(state: u64, n: nat)
    requires
        n >= 1,
    ensures
        blocks(state, n).len() == 8 * n,
        blocks(state, n).take(8) == be64(stirred(state).wrapping_mul(0x2545_f491_4f6c_dd1d)),
    decreases n,
{
    let last = be64(stirred_times(state, n).wrapping_mul(0x2545_f491_4f6c_dd1d));
    if n == 1 {
        assert(stirred_times(state, 0) == state);
        assert(stirred_times(state, 1) == stirred(state));
        assert(blocks(state, 0) =~= Seq::<u8>::empty());
        assert(blocks(state, 1) =~= last);
        assert(blocks(state, 1).take(8) =~= last);
    } else {
        lemma_blocks(state, (n - 1) as nat);
        assert(blocks(state, n).take(8) =~= blocks(state, (n - 1) as nat).take(8));
    }
}

/// Values of eight bytes or more tell keys apart, and rounds: two keys never have one value in a
/// round, nor a key one value in two rounds.
pub proof fn law_values_tell_keys_and_rounds_apart(
    key: u64,
    round: u64,
    key2: u64,
    round2: u64,
    length: nat,
)
    requires
        length >= 8,
        trial_value(key, round, length) == trial_value(key2, round2, length),
        key == key2 || round == round2,
    ensures
        key == key2 && round == round2,
        trial_value(key, round, length).len() == length,
{
    let s = value_seed(key, round);
    let t = value_seed(key2, round2);
    let n = ((length + 7) / 8) as nat;
    lemma_blocks(s, n);
    lemma_blocks(t, n);
    assert(trial_value(key, round, length).take(8) =~= blocks(s, n).take(8));
    assert(trial_value(key2, round2, length).take(8) =~= blocks(t, n).take(8));
    let x = stirred(s).wrapping_mul(0x2545_f491_4f6c_dd1d);
    let y = stirred(t).wrapping_mul(0x2545_f491_4f6c_dd1d);
    lemma_be64_tells(x, y);
    lemma_product_tells(stirred(s), stirred(t));
    lemma_stirred_tells(s, t);
    if round == round2 {
        lemma_seeds_tell(key, key2, round);
    } else {
        lemma_rounds_tell(key, round, round2);
    }
}

/// Two files are told by path and contents: the digests of two source trees are the same only if the
/// files are, unless BLAKE3 itself fails.
pub proof fn law_digests_tell_source_trees_apart(
    a: Seq<(Seq<char>, Seq<u8>)>,
    b: Seq<(Seq<char>, Seq<u8>)>,
)
    requires
        forall|i: int|
            0 <= i < a.len() ==> fits(encode_utf8((#[trigger] a[i]).0)) && fits(a[i].1),
        forall|i: int|
            0 <= i < b.len() ==> fits(encode_utf8((#[trigger] b[i]).0)) && fits(b[i].1),
        blake3_hex(tree_bytes(a, a.len())) == blake3_hex(tree_bytes(b, b.len())),
    ensures
        a == b || collide(tree_bytes(a, a.len()), tree_bytes(b, b.len())),
{
    lemma_digest_tells(tree_bytes(a, a.len()), tree_bytes(b, b.len()));
    if tree_bytes(a, a.len()) == tree_bytes(b, b.len()) {
        let h = encode_utf8("hashring-rs:source-tree:v1\0"@);
        lemma_tree_front(a, a.len());
        lemma_tree_front(b, b.len());
        assert(tree_bytes(a, a.len()) + files_from(a, a.len()) =~= tree_bytes(a, a.len()));
        assert(tree_bytes(b, b.len()) + files_from(b, b.len()) =~= tree_bytes(b, b.len()));
        lemma_cut(h, files_from(a, 0), h, files_from(b, 0));
        lemma_read_files(a, b, 0);
        assert(a =~= b);
    }
}

/// The files from `i` on.
spec fn files_from(files: Seq<(Seq<char>, Seq<u8>)>, i: nat) -> Seq<u8>
    decreases files.len() - i,
{
    if i >= files.len() {
        Seq::empty()
    } else {
        framed(encode_utf8(files[i as int].0)) + (framed(files[i as int].1) + files_from(
            files,
            i + 1,
        ))
    }
}

proof fn lemma_tree_front(files: Seq<(Seq<char>, Seq<u8>)>, n: nat)
    requires
        n <= files.len(),
    ensures
        tree_bytes(files, n) + files_from(files, n) == encode_utf8("hashring-rs:source-tree:v1\0"@)
            + files_from(files, 0),
    decreases n,
{
    if n > 0 {
        lemma_tree_front(files, (n - 1) as nat);
        lemma_group3(
            tree_bytes(files, (n - 1) as nat),
            framed(encode_utf8(files[n - 1].0)),
            framed(files[n - 1].1),
            files_from(files, n),
        );
    }
}

proof fn lemma_read_files(a: Seq<(Seq<char>, Seq<u8>)>, b: Seq<(Seq<char>, Seq<u8>)>, i: nat)
    requires
        i <= a.len(),
        i <= b.len(),
        forall|i: int|
            0 <= i < a.len() ==> fits(encode_utf8((#[trigger] a[i]).0)) && fits(a[i].1),
        forall|i: int|
            0 <= i < b.len() ==> fits(encode_utf8((#[trigger] b[i]).0)) && fits(b[i].1),
        files_from(a, i) == files_from(b, i),
    ensures
        a.len() == b.len(),
        forall|k: int| i <= k < a.len() ==> a[k] == b[k],
    decreases a.len() - i,
{
    if i < a.len() {
        assert(framed(encode_utf8(a[i as int].0)).len() > 0);
        assert(files_from(a, i).len() > 0);
    }
    if i < b.len() {
        assert(framed(encode_utf8(b[i as int].0)).len() > 0);
        assert(files_from(b, i).len() > 0);
    }
    if i < a.len() && i < b.len() {
        let x = a[i as int];
        let y = b[i as int];
        lemma_read_framed(
            encode_utf8(x.0),
            framed(x.1) + files_from(a, i + 1),
            encode_utf8(y.0),
            framed(y.1) + files_from(b, i + 1),
        );
        lemma_utf8_tells(x.0, y.0);
        lemma_read_framed(x.1, files_from(a, i + 1), y.1, files_from(b, i + 1));
        lemma_read_files(a, b, i + 1);
    }
}

/// Refusals that pass by themselves say so and in which epoch; only an uncertain outcome leaves open
/// whether a write took effect.
pub proof fn law_refusals_say_what_they_leave_open(epoch: u64, message: Seq<char>)
    ensures
        temporary(epoch, message).code == ErrorCode::TemporarilyUnavailable,
        temporary(epoch, message).retryable,
        temporary(epoch, message).message == message,
        temporary(epoch, message).current_epoch == epoch,
        !temporary(epoch, message).unknown_write_outcome,
        uncertain(epoch).code == ErrorCode::OutcomeUnknown,
        uncertain(epoch).unknown_write_outcome,
        uncertain(epoch).retryable,
        uncertain(epoch).current_epoch == epoch,
        backpressure(epoch).code == ErrorCode::ResourceExhausted,
        backpressure(epoch).retryable,
        !backpressure(epoch).unknown_write_outcome,
        backpressure(epoch).current_epoch == epoch,
{
}

/// A failover is seen from when the topology without the failed node first shows.
pub proof fn law_failovers_are_timed(w: FailoverWatch, available: bool, published: bool, now: u64)
    ensures
        ({
            let after = w.after(available, published, now);
            &&& after.outage == w.outage.after(available, now)
            &&& w.published is Some ==> after.published == w.published
            &&& w.published is None ==> after.published == if published {
                Some(now)
            } else {
                None
            }
        }),
{
}

} // verus!
