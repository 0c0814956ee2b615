//! When a node answers reads and takes writes, and what a write leaves behind.
use crate::errors::ErrorCode;
use crate::node::{NodeLimits, NodeView};
use crate::node_commit::{awaited_acks, sent};
use crate::node_put::OutcomeView;
use crate::node_queues::QueuesView;
use crate::node_ready::{is_admitted, keeps_up, with_admitted};
use crate::node_receipts::{awaited, spent, waits_on};
use crate::node_streams::PreparedView;
use crate::node_write::{
    key_fault, mutation_fault, recall, DecisionView, MutationView, Recall,
};
use crate::order::{lemma_lex_asymmetric, lemma_lex_total, lemma_lex_transitive, lex_lt, Position};
use crate::receipts::{acks_cost, mutation_print, AckView, ReceiptView};
use crate::records::{version_position, RecordView, VersionView};
use crate::status::{FollowerStatusView, RangeStatusView};
use crate::status_laws::lemma_tally_filter;
use crate::text::{byte_count, lemma_text_rank_injective, text_rank};
use crate::topology::{SnapshotView, WriteAckPolicy};
use vstd::prelude::*;

verus! {

/// A key has at least one byte and no more than allowed.
pub open spec fn fitting_key(limits: NodeLimits, key: Seq<u8>) -> bool {
    1 <= key.len() <= limits.max_key_bytes
}

/// A write has a fitting key, an id of 1 to 128 bytes and a value that is not too large.
pub open spec fn fitting_write(limits: NodeLimits, m: MutationView) -> bool {
    &&& fitting_key(limits, m.key)
    &&& m.request_id.len() > 0
    &&& byte_count(m.request_id) <= 128
    &&& m.value.len() <= limits.max_value_bytes
}

/// A node owns a key and holds a lease of the present epoch that has not run out.
pub open spec fn serves(n: NodeView, key: Seq<u8>, now: u64) -> bool {
    &&& n.topology.owner_id(n.topology.key_token(key)) == n.node_id
    &&& n.lease is Some
    &&& (n.lease->0).0 == n.topology.epoch
    &&& now < (n.lease->0).1
}

/// A write is refused for its shape exactly where it does not fit: as invalid without a key or
/// with a wrong id, as too large otherwise. To try again does not help.
pub proof fn law_fitting_writes_pass(limits: NodeLimits, m: MutationView)
    ensures
        key_fault(limits, m.key) is None <==> fitting_key(limits, m.key),
        mutation_fault(limits, m) is None <==> fitting_write(limits, m),
        mutation_fault(limits, m) matches Some(e) ==> {
            &&& !e.retryable
            &&& e.code == ErrorCode::InvalidArgument <==> m.key.len() == 0 || (m.key.len()
                <= limits.max_key_bytes && (m.request_id.len() == 0 || byte_count(m.request_id)
                > 128))
            &&& e.code == ErrorCode::InvalidArgument || e.code == ErrorCode::TooLarge
        },
{
}

/// A key is read exactly where its owner holds a lease and has a record of it that is not deleted:
/// the answer is that record. Elsewhere the answer says why not, and only what may change of itself
/// is worth another try.
pub proof fn law_owners_answer_reads(n: NodeView, key: Seq<u8>, now: u64)
    ensures
        ({
            let r = n.read(key, now);
            let owned = n.topology.owner_id(n.topology.key_token(key)) == n.node_id;
            let present = n.records.contains_key(key) && !n.records[key].deleted;
            &&& r.error is None <==> fitting_key(n.limits, key) && serves(n, key, now) && present
            &&& r.error is None ==> r.value == n.records[key].value && r.version == Some(
                n.records[key].version,
            )
            &&& r.error is Some ==> r.value.len() == 0 && r.version is None
            &&& fitting_key(n.limits, key) ==> r.current_epoch == n.topology.epoch
            &&& r.error matches Some(e) ==> {
                &&& e.code == ErrorCode::Moved <==> fitting_key(n.limits, key) && !owned
                &&& e.code == ErrorCode::LeaseExpired <==> fitting_key(n.limits, key) && owned
                    && !serves(n, key, now)
                &&& e.code == ErrorCode::NotFound <==> fitting_key(n.limits, key) && serves(
                    n,
                    key,
                    now,
                ) && !present
                &&& e.retryable <==> e.code == ErrorCode::Moved || e.code == ErrorCode::LeaseExpired
            }
        }),
{
}

/// A write is recognized exactly by its id: the same operation on the same key and value gets its
/// first answer, any other is a conflict.
pub proof fn law_requests_are_recognized(receipts: Map<Seq<char>, ReceiptView>, m: MutationView)
    ensures
        ({
            let known = receipts.contains_key(m.request_id);
            let r = receipts[m.request_id];
            let same = r.deleted == m.deleted && r.fingerprint == mutation_print(
                m.key,
                m.value,
                m.deleted,
            );
            &&& recall(receipts, m) == Recall::Unknown <==> !known
            &&& recall(receipts, m) == Recall::Conflict <==> known && !same
            &&& known && same ==> recall(receipts, m) == Recall::Known(r.version, r.required_acks)
        }),
{
}

/// A follower is admitted and no further behind than allowed.
pub open spec fn current(f: FollowerStatusView, max_lag: u64) -> bool {
    f.admitted && f.lag_known && f.lag_millis <= max_lag
}

proof fn lemma_unready(
    t: SnapshotView,
    nodes: Seq<Seq<char>>,
    followers: Seq<FollowerStatusView>,
    i: nat,
)
    requires
        i <= nodes.len(),
    ensures
        t.first_unready(nodes, followers, i) is None <==> forall|k: int|
            i <= k < nodes.len() ==> is_current(t, followers, #[trigger] nodes[k]),
    decreases nodes.len() - i,
{
    if i < nodes.len() {
        lemma_unready(t, nodes, followers, i + 1);
        let node = nodes[i as int];
        let max_lag = t.write_availability_guard.max_replica_lag_millis;
        if is_current(t, followers, node) {
            let k = choose|k: int|
                0 <= k < followers.len() && (#[trigger] followers[k]).node_id == node && current(
                    followers[k],
                    max_lag,
                );
            assert(keeps_up(max_lag)(followers[k]));
        }
        if crate::node_ready::has_ready(followers, node, max_lag) {
            let k = choose|k: int|
                0 <= k < followers.len() && (#[trigger] followers[k]).node_id == node && keeps_up(
                    max_lag,
                )(followers[k]);
            assert(current(followers[k], max_lag));
        }
    }
}

/// A follower of this name is current.
pub open spec fn is_current(
    t: SnapshotView,
    followers: Seq<FollowerStatusView>,
    node: Seq<char>,
) -> bool {
    exists|k: int|
        0 <= k < followers.len() && (#[trigger] followers[k]).node_id == node && current(
            followers[k],
            t.write_availability_guard.max_replica_lag_millis,
        )
}

/// Which followers a write waits for: none, the first successor, or all.
pub open spec fn to_wait_for(t: SnapshotView, token: u64) -> Seq<Seq<char>> {
    let replicas = t.replicas(token);
    if t.write_ack_policy == WriteAckPolicy::OwnerOnly {
        Seq::empty()
    } else if t.write_ack_policy == WriteAckPolicy::FirstSuccessor {
        seq![replicas[1]]
    } else {
        replicas.skip(1)
    }
}

/// A write may begin exactly where the placement has the copies that its policy asks for, the guard
/// finds enough copies admitted and enough followers current, and every follower that it waits for
/// is current; it waits for those and no others. Where the guard asks for nothing and nobody is
/// waited for, the followers do not matter.
pub proof fn law_ready_followers_are_awaited(
    t: SnapshotView,
    token: u64,
    range: Option<RangeStatusView>,
)
    requires
        t.replicas(token).len() >= 1,
    ensures
        ({
            let r = t.followers_to_await(token, range);
            let guard = t.write_availability_guard;
            let placed = {
                &&& t.write_ack_policy == WriteAckPolicy::FirstSuccessor ==> t.replicas(token).len()
                    >= 2
                &&& t.write_ack_policy == WriteAckPolicy::AllReplicas ==> t.replicas(token).len()
                    >= t.desired_replication_factor
            };
            let alone = t.write_ack_policy == WriteAckPolicy::OwnerOnly
                && guard.minimum_admitted_copies <= 1 && guard.minimum_healthy_followers == 0;
            let followers = range->0.followers;
            let admitted = followers.filter(|f: FollowerStatusView| f.admitted).len();
            let healthy = followers.filter(
                |f: FollowerStatusView| current(f, guard.max_replica_lag_millis),
            ).len();
            &&& r is Ok <==> placed && (alone || {
                &&& range is Some
                &&& 1 + admitted >= guard.minimum_admitted_copies
                &&& healthy >= guard.minimum_healthy_followers
                &&& forall|k: int|
                    0 <= k < to_wait_for(t, token).len() ==> is_current(
                        t,
                        followers,
                        #[trigger] to_wait_for(t, token)[k],
                    )
            })
            &&& r is Ok ==> r->Ok_0 == to_wait_for(t, token)
            &&& r matches Err(e) ==> e.retryable
        }),
{
    let guard = t.write_availability_guard;
    let followers = range->0.followers;
    let p = |f: FollowerStatusView| f.admitted;
    let q = |f: FollowerStatusView| current(f, guard.max_replica_lag_millis);
    assert(is_admitted() =~= p);
    assert(keeps_up(guard.max_replica_lag_millis) =~= q);
    lemma_tally_filter(followers, p);
    lemma_tally_filter(followers, q);
    let wanted = t.awaited_followers(token);
    let replicas = t.replicas(token);
    if t.placement_fault(token) is None {
        assert(wanted =~= to_wait_for(t, token));
        lemma_unready(t, wanted, followers, 0);
    }
}

/// A node knows of its followers who is admitted and how long the oldest write that it sent them
/// has waited.
pub proof fn law_owners_know_their_followers(n: NodeView, node: Seq<char>, unix: u64)
    ensures
        ({
            let f = n.known_follower(node, unix);
            let stream = (n.topology.epoch, node);
            let waits = n.owner_stream_unacked.contains_key(stream)
                && n.owner_stream_unacked[stream].len() > 0;
            &&& f.node_id == node
            &&& f.admitted <==> n.admitted_followers.contains_key(node)
            &&& f.lag_known
            &&& !waits ==> f.lag_millis == 0
            &&& waits && n.owner_stream_unacked[stream][0].1 <= unix ==> f.lag_millis == unix
                - n.owner_stream_unacked[stream][0].1
            &&& waits && n.owner_stream_unacked[stream][0].1 > unix ==> f.lag_millis == 0
        }),
{
}

proof fn lemma_unblocked(q: QueuesView, entries: Seq<PreparedView>, i: nat)
    requires
        i <= entries.len(),
    ensures
        q.blocked_from(entries, i) is None <==> forall|k: int|
            i <= k < entries.len() ==> has_room(q, #[trigger] entries[k]),
    decreases entries.len() - i,
{
    if i < entries.len() {
        lemma_unblocked(q, entries, i + 1);
    }
}

/// A stream was not given up and has fewer than 32 writes waiting.
pub open spec fn has_room(q: QueuesView, e: PreparedView) -> bool {
    let stream = (e.topology_epoch, e.follower_node_id);
    &&& !q.failed.contains_key(stream)
    &&& q.waiting.contains_key(stream) ==> q.waiting[stream] < 32
}

/// A write finds room in the queues exactly if it goes to nobody, or if every one of its streams has
/// room and all writes under way together stay within 64 MiB.
pub proof fn law_queues_with_room_take_writes(q: QueuesView, entries: Seq<PreparedView>, bytes: nat)
    ensures
        q.rejection(entries, bytes) is None <==> {
            &&& entries.len() > 0 ==> q.retained_bytes + bytes <= 67_108_864
            &&& forall|k: int| 0 <= k < entries.len() ==> has_room(q, #[trigger] entries[k])
        },
{
    lemma_unblocked(q, entries, 0);
}

/// A range that is moving away is held back, or one that came is not active yet.
pub open spec fn held_back(n: NodeView, token: u64) -> bool {
    ||| exists|k: (Seq<char>, Seq<char>)| #[trigger]
        n.sources.contains_key(k) && n.sources[k].writes_paused && n.sources[k].range.covers(token)
    ||| exists|k: (Seq<char>, Seq<char>)| #[trigger]
        n.destinations.contains_key(k) && !n.destinations[k].writes_activated
            && n.destinations[k].range.covers(token)
}

/// What a write would be remembered with.
pub open spec fn memory_of(n: NodeView, m: MutationView, awaited: Seq<Seq<char>>) -> nat {
    byte_count(m.request_id) + m.key.len() + byte_count(n.node_id) + 288 + acks_cost(awaited)
}

/// What a write takes on its way to the followers.
pub open spec fn way_of(n: NodeView, m: MutationView) -> nat {
    m.key.len() + m.value.len() + byte_count(n.node_id) + byte_count(m.request_id) + 256
}

/// A write that is new is taken exactly by the owner of its key, under a lease, where its followers
/// are ready, it can be remembered, nothing holds writes back, and there is room in the journal and
/// in the queues. One that is known gets its first answer. Nothing else is taken.
pub proof fn law_writes_are_taken(
    n: NodeView,
    queues: QueuesView,
    m: MutationView,
    journal: nat,
    now: u64,
    unix: u64,
)
    ensures
        ({
            let r = n.write_outcome(queues, m, journal, now, unix);
            let token = n.topology.key_token(m.key);
            let ready = n.topology.followers_to_await(token, Some(n.known_range(token, unix)));
            let fits = fitting_write(n.limits, m) && serves(n, m.key, now);
            let live = n.receipts.contains_key(m.request_id) && n.receipts[m.request_id].expires_at
                > now;
            let entries = n.purged(now).numbering(m.key);
            &&& r is Written <==> {
                &&& fits
                &&& !live
                &&& ready is Ok
                &&& spent(n.live_receipts(now)) + memory_of(n, m, ready->Ok_0)
                    <= n.limits.max_dedup_bytes
                &&& n.policy_write_fence is None
                &&& !held_back(n, token)
                &&& journal <= n.limits.max_journal_bytes
                &&& way_of(n, m) <= 67_108_864
                &&& queues.rejection(entries, way_of(n, m)) is None
            }
            &&& r is Known <==> fits && live && n.receipts[m.request_id].deleted == m.deleted
                && n.receipts[m.request_id].fingerprint == mutation_print(
                m.key,
                m.value,
                m.deleted,
            )
            &&& r matches OutcomeView::Known(version, acks) ==> version
                == n.receipts[m.request_id].version && acks
                == n.receipts[m.request_id].required_acks
            &&& r matches OutcomeView::Written(version, _, sent_to) ==> {
                &&& version.topology_epoch == n.topology.epoch
                &&& version.owner_sequence == (n.next_sequence + 1) as u64
                &&& version.owner_node_id == n.node_id
                &&& sent_to == entries
            }
        }),
{
    let token = n.topology.key_token(m.key);
    let p = n.purged(now);
    assert(p.sources == n.sources && p.destinations == n.destinations);
    assert(p.topology == n.topology && p.limits == n.limits);
    assert(p.policy_write_fence == n.policy_write_fence);
    assert(p.receipts == n.live_receipts(now));
    assert(held_back(n, token) <==> n.paused_at(token) || n.inactive_at(token));
    assert(p.paused_at(token) == n.paused_at(token));
    assert(p.inactive_at(token) == n.inactive_at(token));
}

/// A taken write goes to every follower of its key, each stream one number further; the streams of
/// the others stay.
pub proof fn law_writes_go_to_every_follower(n: NodeView, key: Seq<u8>, i: int)
    requires
        n.topology.replicas(n.topology.key_token(key)).len() >= 1,
    ensures
        ({
            let replicas = n.topology.replicas(n.topology.key_token(key));
            let entries = n.numbering(key);
            &&& entries.len() == replicas.len() - 1
            &&& 0 <= i < entries.len() ==> {
                let stream = (n.topology.epoch, replicas[i + 1]);
                let last = if n.owner_stream_sequences.contains_key(stream) {
                    n.owner_stream_sequences[stream]
                } else {
                    0
                };
                &&& entries[i].topology_epoch == n.topology.epoch
                &&& entries[i].follower_node_id == replicas[i + 1]
                &&& last < u64::MAX ==> entries[i].stream_sequence == last + 1
            }
        }),
{
}

/// A write waits exactly for the acknowledgements of its entries to the followers that it is to
/// wait for.
pub proof fn law_writes_wait_for_their_acknowledgements(
    entries: Seq<PreparedView>,
    ready: Seq<Seq<char>>,
    n: nat,
    ack: AckView,
)
    requires
        n <= entries.len(),
    ensures
        awaited_acks(entries, ready, n).contains(ack) <==> exists|i: int|
            0 <= i < n && (#[trigger] entries[i]).topology_epoch == ack.epoch
                && entries[i].follower_node_id == ack.node_id && entries[i].stream_sequence
                == ack.sequence && ready.contains(ack.node_id),
    decreases n,
{
    if n > 0 {
        law_writes_wait_for_their_acknowledgements(entries, ready, (n - 1) as nat, ack);
        let before = awaited_acks(entries, ready, (n - 1) as nat);
        let after = awaited_acks(entries, ready, n);
        let e = entries[n - 1];
        if before.contains(ack) {
            let k = choose|k: int| 0 <= k < before.len() && before[k] == ack;
            assert(after[k] == ack);
        }
        if ready.contains(e.follower_node_id) {
            assert(after[before.len() as int].epoch == e.topology_epoch);
            if after.contains(ack) {
                let k = choose|k: int| 0 <= k < after.len() && after[k] == ack;
                if k < before.len() {
                    assert(before[k] == ack);
                } else {
                    assert(entries[n - 1].topology_epoch == ack.epoch);
                }
            }
            if e.topology_epoch == ack.epoch && e.follower_node_id == ack.node_id
                && e.stream_sequence == ack.sequence {
                assert(after[before.len() as int] == ack);
            }
        }
    }
}

/// What a taken write leaves behind: its record under a version with the next number, a receipt
/// that lives for a minute, and a line in the journal of every range on the move that has the key.
pub proof fn law_taken_writes_are_written_down(
    n: NodeView,
    m: MutationView,
    ready: Seq<Seq<char>>,
    entries: Seq<PreparedView>,
    now: u64,
    unix: u64,
    k: (Seq<char>, Seq<char>),
)
    requires
        n.next_sequence < u64::MAX,
        now + 60_000_000_000 <= u64::MAX,
        memory_of(n, m, ready) <= usize::MAX,
    ensures
        ({
            let after = n.written(m, ready, entries, now, unix);
            let version = VersionView {
                topology_epoch: n.topology.epoch,
                owner_sequence: (n.next_sequence + 1) as u64,
                owner_node_id: n.node_id,
            };
            let record = RecordView { value: m.value, version: version, deleted: m.deleted };
            let receipt = after.receipts[m.request_id];
            &&& after.next_sequence == n.next_sequence + 1
            &&& !m.deleted || !n.records.contains_key(m.key) || version_position(
                version,
                n.records[m.key].version,
            ) == Position::After ==> after.records == n.records.insert(m.key, record)
            &&& after.receipts.contains_key(m.request_id)
            &&& after.receipts == n.receipts.insert(m.request_id, receipt)
            &&& receipt.key == m.key
            &&& receipt.version == version
            &&& receipt.deleted == m.deleted
            &&& receipt.fingerprint == mutation_print(m.key, m.value, m.deleted)
            &&& receipt.expires_at == now + 60_000_000_000
            &&& receipt.retained_bytes == memory_of(n, m, ready)
            &&& receipt.required_acks == awaited_acks(entries, ready, entries.len())
            &&& after.sources.dom() == n.sources.dom()
            &&& n.sources.contains_key(k) && !n.sources[k].range.covers(
                n.topology.key_token(m.key),
            ) ==> after.sources[k] == n.sources[k]
            &&& n.sources.contains_key(k) && n.sources[k].range.covers(
                n.topology.key_token(m.key),
            ) && n.sources[k].watermark < u64::MAX ==> {
                let source = after.sources[k];
                let line = source.journal.last();
                &&& source.watermark == n.sources[k].watermark + 1
                &&& source.journal.len() == n.sources[k].journal.len() + 1
                &&& source.journal.drop_last() == n.sources[k].journal
                &&& line.watermark == source.watermark
                &&& line.record is Some
                &&& line.record->0.key == m.key
                &&& line.record->0.value == m.value
                &&& line.record->0.version == Some(version)
                &&& line.record->0.deleted == m.deleted
                &&& line.record->0.mutation_id == m.request_id
                &&& source.range == n.sources[k].range
                &&& source.writes_paused == n.sources[k].writes_paused
            }
            &&& after.topology == n.topology
            &&& after.lease == n.lease
            &&& after.destinations == n.destinations
            &&& after.follower_streams == n.follower_streams
            &&& after.admitted_followers == n.admitted_followers
            &&& after.policy_write_fence == n.policy_write_fence
        }),
{
    let after = n.written(m, ready, entries, now, unix);
    assert(after.sources.dom() =~= n.sources.dom());
    if n.sources.contains_key(k) && n.sources[k].range.covers(n.topology.key_token(m.key)) {
        assert(after.sources[k].journal.drop_last() =~= n.sources[k].journal);
    }
}

/// Every entry of a taken write is noted as sent, at the time of sending, behind what was sent
/// before on its stream.
pub proof fn law_sent_writes_are_noted(
    unacked: Map<(u64, Seq<char>), Seq<(u64, u64)>>,
    entries: Seq<PreparedView>,
    unix: u64,
    n: nat,
    stream: (u64, Seq<char>),
)
    requires
        n <= entries.len(),
        forall|i: int, j: int|
            0 <= i < j < entries.len() ==> (#[trigger] entries[i]).follower_node_id != (
            #[trigger] entries[j]).follower_node_id,
    ensures
        ({
            let after = sent(unacked, entries, unix, n);
            let before = if unacked.contains_key(stream) {
                unacked[stream]
            } else {
                Seq::empty()
            };
            if exists|i: int|
                0 <= i < n && (#[trigger] entries[i]).topology_epoch == stream.0
                    && entries[i].follower_node_id == stream.1 {
                exists|i: int|
                    0 <= i < n && (#[trigger] entries[i]).topology_epoch == stream.0
                        && entries[i].follower_node_id == stream.1 && after.contains_key(stream)
                        && after[stream] == before.push((entries[i].stream_sequence, unix))
            } else {
                after.contains_key(stream) == unacked.contains_key(stream) && (
                unacked.contains_key(stream) ==> after[stream] == unacked[stream])
            }
        }),
    decreases n,
{
    if n > 0 {
        law_sent_writes_are_noted(unacked, entries, unix, (n - 1) as nat, stream);
        let e = entries[n - 1];
        let m = sent(unacked, entries, unix, (n - 1) as nat);
        if e.topology_epoch == stream.0 && e.follower_node_id == stream.1 {
            assert(forall|i: int|
                0 <= i < n - 1 ==> (#[trigger] entries[i]).follower_node_id != e.follower_node_id);
            assert(entries[n - 1].topology_epoch == stream.0);
        } else {
            assert(e.stream() != stream);
            if exists|i: int|
                0 <= i < n - 1 && (#[trigger] entries[i]).topology_epoch == stream.0
                    && entries[i].follower_node_id == stream.1 {
                let i = choose|i: int|
                    0 <= i < n - 1 && (#[trigger] entries[i]).topology_epoch == stream.0
                        && entries[i].follower_node_id == stream.1 && m.contains_key(stream)
                        && m[stream] == (if unacked.contains_key(stream) {
                        unacked[stream]
                    } else {
                        Seq::empty()
                    }).push((entries[i].stream_sequence, unix));
                assert(entries[i].topology_epoch == stream.0);
            }
        }
    }
}

/// Versions are ordered: one of two different ones is newer, and what is newer than a newer one is
/// newer still. A later epoch is newer, and within one the higher number.
pub proof fn law_versions_are_ordered(a: VersionView, b: VersionView, c: VersionView)
    ensures
        version_position(a, b) == Position::Same <==> a == b,
        version_position(a, b) == Position::After <==> version_position(b, a) == Position::Before,
        version_position(a, b) == Position::After && version_position(b, c) == Position::After
            ==> version_position(a, c) == Position::After,
        a.topology_epoch > b.topology_epoch ==> version_position(a, b) == Position::After,
        a.topology_epoch == b.topology_epoch && a.owner_sequence > b.owner_sequence
            ==> version_position(a, b) == Position::After,
{
    let x = text_rank(a.owner_node_id);
    let y = text_rank(b.owner_node_id);
    let z = text_rank(c.owner_node_id);
    lemma_lex_total(x, y);
    if lex_lt(x, y) {
        lemma_lex_asymmetric(x, y);
    }
    if lex_lt(y, x) {
        lemma_lex_asymmetric(y, x);
        if lex_lt(z, y) {
            lemma_lex_transitive(z, y, x);
        }
    }
    if x == y {
        lemma_text_rank_injective(a.owner_node_id, b.owner_node_id);
        assert(!lex_lt(x, x));
    }
    lemma_lex_total(x, z);
    lemma_lex_total(y, z);
    if lex_lt(z, x) {
        lemma_lex_asymmetric(z, x);
    }
}

/// The admitted followers are exactly those that some range of the owner names as admitted.
pub proof fn law_admissions_are_taken_over(
    known: Map<Seq<char>, Seq<char>>,
    followers: Seq<FollowerStatusView>,
    n: nat,
    node: Seq<char>,
)
    requires
        n <= followers.len(),
    ensures
        with_admitted(known, followers, n).contains_key(node) <==> known.contains_key(node)
            || exists|i: int|
            0 <= i < n && (#[trigger] followers[i]).admitted && followers[i].node_id == node,
        (exists|i: int|
            0 <= i < n && (#[trigger] followers[i]).admitted && followers[i].node_id == node)
            ==> exists|i: int|
            0 <= i < n && (#[trigger] followers[i]).admitted && followers[i].node_id == node
                && followers[i].process_instance_id == with_admitted(known, followers, n)[node],
    decreases n,
{
    if n > 0 {
        law_admissions_are_taken_over(known, followers, (n - 1) as nat, node);
        let f = followers[n - 1];
        let before = with_admitted(known, followers, (n - 1) as nat);
        let after = with_admitted(known, followers, n);
        if f.admitted && f.node_id == node {
            assert(followers[n - 1].process_instance_id == after[node]);
        } else if exists|i: int|
            0 <= i < n - 1 && (#[trigger] followers[i]).admitted && followers[i].node_id == node {
            let i = choose|i: int|
                0 <= i < n - 1 && (#[trigger] followers[i]).admitted && followers[i].node_id
                    == node && followers[i].process_instance_id == before[node];
            assert(followers[i].process_instance_id == after[node]);
        }
    }
}

/// A refused write is told why: a conflict of ids is final, and everything else may pass. The reasons
/// come in order: no room to remember it, a fence, a range held back, a full journal, no room on the
/// way.
pub proof fn law_refused_writes_are_told_why(
    n: NodeView,
    m: MutationView,
    ready: Seq<Seq<char>>,
    journal: nat,
    now: u64,
)
    ensures
        ({
            let r = n.decide(m, ready, journal, now);
            let token = n.topology.key_token(m.key);
            let known = n.receipts.contains_key(m.request_id);
            let crowded = spent(n.receipts) + memory_of(n, m, ready) > n.limits.max_dedup_bytes;
            let held = n.policy_write_fence is Some || held_back(n, token);
            r matches DecisionView::Refused(e) ==> {
                &&& e.retryable <==> !known
                &&& !e.unknown_write_outcome
                &&& known <==> e.code == ErrorCode::MutationIdConflict
                &&& !known && !crowded && held ==> e.code == ErrorCode::RangeBusy
                &&& !known && (crowded || !held) ==> e.code == ErrorCode::ResourceExhausted
                &&& !known ==> e.current_epoch == n.topology.epoch
                &&& !known && crowded ==> e.retry_after_millis == n.retry_after(now)
            }
        }),
{
    let token = n.topology.key_token(m.key);
    assert(held_back(n, token) <==> n.paused_at(token) || n.inactive_at(token));
}

/// A write is refused for its key exactly where its owner would not answer a read either, and for its
/// id where that stands for another write; both are told as they are.
pub proof fn law_first_looks_tell_owners_and_conflicts(n: NodeView, m: MutationView, now: u64)
    ensures
        ({
            let r = n.first_look(m, now);
            let owned = n.topology.owner_id(n.topology.key_token(m.key)) == n.node_id;
            let live = n.receipts.contains_key(m.request_id) && n.receipts[m.request_id].expires_at
                > now;
            let same = n.receipts[m.request_id].deleted == m.deleted
                && n.receipts[m.request_id].fingerprint == mutation_print(
                m.key,
                m.value,
                m.deleted,
            );
            &&& r is Refused <==> !serves(n, m.key, now) || (live && !same)
            &&& r is Retry <==> serves(n, m.key, now) && live && same
            &&& r matches DecisionView::Refused(e) ==> {
                &&& e.code == ErrorCode::Moved <==> !owned
                &&& e.code == ErrorCode::LeaseExpired <==> owned && !serves(n, m.key, now)
                &&& e.code == ErrorCode::MutationIdConflict <==> serves(n, m.key, now)
                &&& e.retryable <==> !serves(n, m.key, now)
            }
        }),
{
}

/// Cleaning up forgets exactly the receipts that have run out. Old progress is cleaned up with them,
/// once a second at most: when something ran out before, and never what a receipt still waits for.
pub proof fn law_cleaning_up_takes_turns(n: NodeView, now: u64, stream: (u64, Seq<char>))
    requires
        now + 1_000_000_000 <= u64::MAX,
    ensures
        ({
            let after = n.purged(now);
            let due = n.ack_progress_needs_prune || exists|id: Seq<char>| #[trigger]
                n.receipts.contains_key(id) && n.receipts[id].expires_at <= now;
            let runs = due && now >= n.next_ack_prune_at;
            let kept = stream.0 == n.topology.epoch || exists|id: Seq<char>, i: int|
                n.receipts.contains_key(id) && n.receipts[id].expires_at > now && 0 <= i
                    < n.receipts[id].required_acks.len() && (
                #[trigger] n.receipts[id].required_acks[i]).epoch == stream.0
                    && n.receipts[id].required_acks[i].node_id == stream.1;
            &&& after.ack_progress_needs_prune <==> due && !runs
            &&& runs ==> after.next_ack_prune_at == now + 1_000_000_000
            &&& !runs ==> after.next_ack_prune_at == n.next_ack_prune_at && after.ack_progress
                == n.ack_progress
            &&& runs ==> (after.ack_progress.contains_key(stream) <==> n.ack_progress.contains_key(
                stream,
            ) && kept)
            &&& after.ack_progress.contains_key(stream) ==> after.ack_progress[stream]
                == n.ack_progress[stream]
        }),
{
    let live = n.live_receipts(now);
    assert(n.has_expired(now) <==> exists|id: Seq<char>| #[trigger]
        n.receipts.contains_key(id) && n.receipts[id].expires_at <= now);
    if awaited(live, stream) {
        let id = choose|id: Seq<char>| #[trigger]
            live.contains_key(id) && waits_on(live[id], stream);
        let i = choose|i: int|
            0 <= i < live[id].required_acks.len() && (#[trigger] live[id].required_acks[i]).epoch
                == stream.0 && live[id].required_acks[i].node_id == stream.1;
        assert(n.receipts[id].required_acks[i].epoch == stream.0);
    }
    if exists|id: Seq<char>, i: int|
        n.receipts.contains_key(id) && n.receipts[id].expires_at > now && 0 <= i
            < n.receipts[id].required_acks.len() && (
        #[trigger] n.receipts[id].required_acks[i]).epoch == stream.0
            && n.receipts[id].required_acks[i].node_id == stream.1 {
        let (id, i) = choose|id: Seq<char>, i: int|
            n.receipts.contains_key(id) && n.receipts[id].expires_at > now && 0 <= i
                < n.receipts[id].required_acks.len() && (
            #[trigger] n.receipts[id].required_acks[i]).epoch == stream.0
                && n.receipts[id].required_acks[i].node_id == stream.1;
        assert(live.contains_key(id) && live[id] == n.receipts[id]);
        assert(live[id].required_acks[i].epoch == stream.0);
        assert(waits_on(live[id], stream));
    }
}

/// A declined write leaves a node as it was that does not serve it, or not any more under the same
/// epoch; elsewhere receipts that have run out are forgotten, and a write that could not be remembered
/// is counted.
pub proof fn law_declined_writes_leave_little(
    n: NodeView,
    m: MutationView,
    ready: Seq<Seq<char>>,
    ready_epoch: u64,
    now: u64,
)
    requires
        n.owner_dedup_rejections < u64::MAX,
    ensures
        ({
            let after = n.declined_state(m, ready, ready_epoch, now);
            let served = serves(n, m.key, now) && n.topology.epoch == ready_epoch;
            let live = n.receipts.contains_key(m.request_id) && n.receipts[m.request_id].expires_at
                > now;
            let full = spent(n.live_receipts(now)) + memory_of(n, m, ready)
                > n.limits.max_dedup_bytes;
            &&& !served ==> after == n
            &&& served ==> after.receipts == n.live_receipts(now)
            &&& after.records == n.records
            &&& after.next_sequence == n.next_sequence
            &&& after.owner_dedup_rejections == n.owner_dedup_rejections + if served && !live
                && full {
                1int
            } else {
                0int
            }
        }),
{
    assert(n.purged(now).receipts == n.live_receipts(now));
}

} // verus!
