//! What holds of a node over several operations.
use crate::node::{NodeView, SourceView};
use crate::node_commit::awaited_acks;
use crate::node_follow::{advanced_stream, standing};
use crate::node_pages::{outgoing, snapshot_page};
use crate::node_receipts::spent;
use crate::node_streams::{
    last_sequence, law_rollback_undoes_numbering, taken_back, EntryView, PreparedView,
};
use crate::node_write::{
    key_fault, recall, DecisionView, GetResponseView, MutationView, Recall,
};
use crate::order::Position;
use crate::receipts::{mutation_print, IDEMPOTENCY_WINDOW_NANOS};
use crate::records::{migration_record_bytes, version_position, MigrationRecordView, RecordView};
use crate::topology::SnapshotView;
use vstd::prelude::*;

verus! {

/// A read after a put gives back what was put, with the version that the put was answered.
pub proof fn law_read_returns_the_last_put(
    n: NodeView,
    m: MutationView,
    ready: Seq<Seq<char>>,
    entries: Seq<PreparedView>,
    now: u64,
    unix: u64,
    later: u64,
)
    requires
        !m.deleted,
        key_fault(n.limits, m.key) is None,
        n.owner_fault(m.key, later) is None,
    ensures
        n.written(m, ready, entries, now, unix).read(m.key, later) == (GetResponseView {
            value: m.value,
            version: Some(n.next_version()),
            current_epoch: n.epoch(),
            error: None,
        }),
{
    let w = n.written(m, ready, entries, now, unix);
    assert(w.topology == n.topology);
    assert(w.owner_fault(m.key, later) == n.owner_fault(m.key, later));
}

/// A read after a delete that is newer than what it deletes finds nothing.
pub proof fn law_read_after_delete_finds_nothing(
    n: NodeView,
    m: MutationView,
    ready: Seq<Seq<char>>,
    entries: Seq<PreparedView>,
    now: u64,
    unix: u64,
    later: u64,
)
    requires
        m.deleted,
        key_fault(n.limits, m.key) is None,
        n.owner_fault(m.key, later) is None,
        n.records.contains_key(m.key) ==> version_position(
            n.next_version(),
            n.records[m.key].version,
        ) == Position::After,
    ensures
        ({
            let r = n.written(m, ready, entries, now, unix).read(m.key, later);
            r.error is Some && r.version is None
        }),
{
    let w = n.written(m, ready, entries, now, unix);
    assert(w.topology == n.topology);
    assert(w.owner_fault(m.key, later) == n.owner_fault(m.key, later));
    assert(w.records[m.key].deleted);
}

/// A write to one key changes the read of no other.
pub proof fn law_writes_touch_one_key(
    n: NodeView,
    m: MutationView,
    ready: Seq<Seq<char>>,
    entries: Seq<PreparedView>,
    now: u64,
    unix: u64,
    key: Seq<u8>,
    later: u64,
)
    requires
        key != m.key,
    ensures
        n.written(m, ready, entries, now, unix).read(key, later) == n.read(key, later),
{
    let w = n.written(m, ready, entries, now, unix);
    assert(w.topology == n.topology);
    assert(w.owner_fault(key, later) == n.owner_fault(key, later));
    assert(w.records.contains_key(key) == n.records.contains_key(key));
}

/// As long as its receipt lives, a write that is sent again is answered with the version of
/// the first time, and another write under its name is refused.
pub proof fn law_retries_get_the_first_answer(
    n: NodeView,
    m: MutationView,
    ready: Seq<Seq<char>>,
    entries: Seq<PreparedView>,
    now: u64,
    unix: u64,
    later: u64,
    other: MutationView,
)
    requires
        now + IDEMPOTENCY_WINDOW_NANOS <= u64::MAX,
        later < now + IDEMPOTENCY_WINDOW_NANOS,
        n.owner_fault(m.key, later) is None,
        n.owner_fault(other.key, later) is None,
        other.request_id == m.request_id,
        other.deleted != m.deleted || mutation_print(other.key, other.value, other.deleted)
            != mutation_print(m.key, m.value, m.deleted),
    ensures
        n.written(m, ready, entries, now, unix).first_look(m, later) == DecisionView::Retry(
            n.next_version(),
            awaited_acks(entries, ready, entries.len()),
        ),
        n.written(m, ready, entries, now, unix).first_look(other, later) is Refused,
{
    let w = n.written(m, ready, entries, now, unix);
    assert(w.topology == n.topology);
    assert(w.owner_fault(m.key, later) == n.owner_fault(m.key, later));
    assert(w.owner_fault(other.key, later) == n.owner_fault(other.key, later));
    let live = w.live_receipts(later);
    assert(live.contains_key(m.request_id));
    assert(live[m.request_id] == n.next_receipt(m, ready, entries, now));
}

/// Acknowledgements that came in free room but do not change what a retry is answered.
pub proof fn law_acknowledged_writes_are_remembered(
    n: NodeView,
    m: MutationView,
    version: crate::records::VersionView,
)
    requires
        recall(n.receipts, m) matches Recall::Known(v, _) && v == version,
    ensures
        recall(n.acknowledged(m.request_id, version).receipts, m) matches Recall::Known(v, acks)
            && v == version && (n.waits_for(m.request_id, version) ==> acks.len() == 0),
{
}

/// A write that the queues could not take leaves the streams as they were.
pub proof fn law_refused_writes_leave_the_streams(n: NodeView, key: Seq<u8>)
    requires
        n.topology.sound(),
        n.room(),
        forall|k: (u64, Seq<char>)| #[trigger]
            n.owner_stream_sequences.contains_key(k) ==> n.owner_stream_sequences[k] >= 1,
    ensures
        ({
            let e = n.numbering(key);
            taken_back(n.with_numbering(key).owner_stream_sequences, e, e.len())
                == n.owner_stream_sequences
        }),
        n.with_numbering(key).records == n.records,
        n.with_numbering(key).receipts == n.receipts,
{
    n.lemma_numbering(key);
    let e = n.numbering(key);
    let f = n.followers(key);
    assert forall|i: int| 0 <= i < e.len() implies (#[trigger] e[i]).stream() == (n.epoch(), f[i])
        && e[i].stream_sequence == last_sequence(n.owner_stream_sequences, (n.epoch(), f[i]))
        + 1 by {
        let k = (n.epoch(), f[i]);
        if n.owner_stream_sequences.contains_key(k) {
            assert(n.owner_stream_sequences[k] < u64::MAX);
        }
    }
    law_rollback_undoes_numbering(n.owner_stream_sequences, n.epoch(), f, e);
}

/// A write goes on only where its receipt and its journal lines keep within the limits of
/// the node.
pub proof fn law_writes_keep_the_budgets(
    n: NodeView,
    m: MutationView,
    ready: Seq<Seq<char>>,
    ready_epoch: u64,
    journal: nat,
    now: u64,
)
    requires
        n.settle(m, ready, ready_epoch, journal, now) is Proceed,
    ensures
        spent(n.purged(now).receipts) + n.write_cost(m, ready) <= n.limits.max_dedup_bytes,
        journal <= n.limits.max_journal_bytes,
        n.policy_write_fence is None,
        !n.paused_at(n.token(m.key)),
        !n.inactive_at(n.token(m.key)),
        n.leased(now),
{
    let p = n.purged(now);
    assert(p.limits == n.limits && p.node_id == n.node_id && p.topology == n.topology);
    assert(p.sources == n.sources && p.destinations == n.destinations);
    assert(p.write_cost(m, ready) == n.write_cost(m, ready));
    assert(p.paused_at(n.token(m.key)) == n.paused_at(n.token(m.key)));
    assert(p.inactive_at(n.token(m.key)) == n.inactive_at(n.token(m.key)));
}

/// A follower moves a stream on one write at a time, without gaps.
pub proof fn law_followers_apply_without_gaps(n: NodeView, e: EntryView, now: u64)
    requires
        n.replicated(e, now).1.stream_of(e).applied_sequence != n.stream_of(e).applied_sequence,
    ensures
        n.replicated(e, now).0 == Ok::<u64, crate::errors::StatusView>(e.stream_sequence),
        e.stream_sequence == n.stream_of(e).applied_sequence + 1,
        n.replicated(e, now).1.stream_of(e).applied_sequence == e.stream_sequence,
        n.stream_of(e).last_owner_sequence < e.version->0.owner_sequence,
{
    let k = (e.topology_epoch, e.owner_node_id);
    let w = n.with_stream(e);
    assert(w.stream_of(e) == n.stream_of(e));
    let p = w.purged(now);
    assert(p.follower_streams == w.follower_streams);
    assert(p.stream_of(e) == n.stream_of(e));
    assert(p.followed(e, now).stream_of(e) == advanced_stream(n.stream_of(e), e));
}

/// A write that a follower has applied is acknowledged when it comes again, and then changes
/// nothing.
pub proof fn law_applied_writes_are_acknowledged_again(n: NodeView, e: EntryView, now: u64, later: u64)
    requires
        standing(n.stream_of(e), e) is Next,
        n.replicated(e, now).0 is Ok,
    ensures
        n.replicated(e, now).1.replicated(e, later) == (
            Ok::<u64, crate::errors::StatusView>(e.stream_sequence),
            n.replicated(e, now).1,
        ),
{
    let w = n.with_stream(e);
    let p = w.purged(now);
    assert(p.follower_streams == w.follower_streams);
    assert(p.stream_of(e) == n.stream_of(e));
    assert(p.topology == n.topology && p.limits == n.limits && p.node_id == n.node_id);
    let a = p.followed(e, now);
    assert(a.stream_of(e) == advanced_stream(n.stream_of(e), e));
    assert(a.authority_fault(e) == n.authority_fault(e));
    assert(standing(a.stream_of(e), e) is Known);
    assert(a.with_stream(e).follower_streams =~= a.follower_streams);
    assert(a.with_stream(e) =~= a);
}

/// A replicated write that is older than what a follower holds does not change what it holds.
pub proof fn law_older_replicated_writes_change_no_record(n: NodeView, e: EntryView, now: u64)
    requires
        e.version is Some,
        n.records.contains_key(e.key),
        version_position(e.version->0, n.records[e.key].version) != Position::After,
    ensures
        n.replicated(e, now).1.records == n.records,
{
}

/// A node that hands a range over keeps the records of which it holds a copy by placement.
pub proof fn law_cleanup_keeps_placed_copies(
    n: NodeView,
    range: (Seq<char>, Seq<char>),
    key: Seq<u8>,
)
    requires
        n.records.contains_key(key),
        n.topology.replicas(n.token(key)).contains(n.node_id),
    ensures
        n.cleaned(range).records.contains_key(key),
        n.cleaned(range).records[key] == n.records[key],
{
}

/// Under a topology of another epoch a node has no lease until it is granted one.
pub proof fn law_new_epochs_need_new_leases(n: NodeView, t: SnapshotView, forget: bool, now: u64)
    requires
        t.epoch != n.epoch(),
    ensures
        !n.under(t, forget).leased(now),
{
}

/// The records that stand between two places of a list of keys.
pub open spec fn present(
    keys: Seq<Seq<u8>>,
    records: Map<Seq<u8>, RecordView>,
    from: nat,
    to: nat,
) -> Seq<MigrationRecordView>
    decreases to,
{
    if to <= from {
        Seq::empty()
    } else {
        let rest = present(keys, records, from, (to - 1) as nat);
        if records.contains_key(keys[to - 1]) {
            rest.push(outgoing(keys[to - 1], records[keys[to - 1]]))
        } else {
            rest
        }
    }
}

/// A page holds the records from its cursor up to the next one, each of them once, and moves
/// the cursor on. Pages read one after the other leave nothing out.
pub proof fn law_pages_leave_nothing_out(
    keys: Seq<Seq<u8>>,
    records: Map<Seq<u8>, RecordView>,
    limit: nat,
    cursor: nat,
)
    requires
        cursor <= keys.len(),
    ensures
        ({
            let (page, next) = snapshot_page(keys, records, limit, cursor, 0, Seq::empty());
            &&& page == present(keys, records, cursor, next)
            &&& cursor <= next <= keys.len()
            &&& cursor < keys.len() ==> cursor < next
        }),
{
    lemma_page(keys, records, limit, cursor, cursor, 0, Seq::empty());
}

proof fn lemma_page(
    keys: Seq<Seq<u8>>,
    records: Map<Seq<u8>, RecordView>,
    limit: nat,
    from: nat,
    i: nat,
    bytes: nat,
    page: Seq<MigrationRecordView>,
)
    requires
        from <= i <= keys.len(),
        page == present(keys, records, from, i),
    ensures
        ({
            let (whole, next) = snapshot_page(keys, records, limit, i, bytes, page);
            &&& whole == present(keys, records, from, next)
            &&& i <= next <= keys.len()
            &&& i < keys.len() && page.len() == 0 ==> i < next
        }),
    decreases keys.len() - i,
{
    if i < keys.len() {
        if !records.contains_key(keys[i as int]) {
            lemma_page(keys, records, limit, from, i + 1, bytes, page);
        } else {
            let record = outgoing(keys[i as int], records[keys[i as int]]);
            let size = migration_record_bytes(record);
            if page.len() > 0 && bytes + size > limit {
            } else {
                lemma_page(keys, records, limit, from, i + 1, bytes + size, page.push(record));
            }
        }
    }
}

/// Two pages one after the other hold what one page over both would.
pub proof fn law_pages_join(
    keys: Seq<Seq<u8>>,
    records: Map<Seq<u8>, RecordView>,
    a: nat,
    b: nat,
    c: nat,
)
    requires
        a <= b <= c <= keys.len(),
    ensures
        present(keys, records, a, b) + present(keys, records, b, c) == present(
            keys,
            records,
            a,
            c,
        ),
    decreases c,
{
    let left = present(keys, records, a, b);
    if c > b {
        law_pages_join(keys, records, a, b, (c - 1) as nat);
        let mid = present(keys, records, b, (c - 1) as nat);
        if records.contains_key(keys[c - 1]) {
            let x = outgoing(keys[c - 1], records[keys[c - 1]]);
            assert(left + mid.push(x) =~= (left + mid).push(x));
        }
    } else {
        assert(left + Seq::<MigrationRecordView>::empty() =~= left);
    }
}

/// While writes to a range are paused, its keys are read as before, and no new write to them
/// is taken.
pub proof fn law_paused_ranges_are_read_and_not_written(
    n: NodeView,
    range: (Seq<char>, Seq<char>),
    m: MutationView,
    ready: Seq<Seq<char>>,
    journal: nat,
    now: u64,
)
    requires
        n.sources.contains_key(range),
        n.sources[range].range.covers(n.token(m.key)),
        recall(n.receipts, m) is Unknown,
    ensures
        ({
            let paused = NodeView {
                sources: n.sources.insert(
                    range,
                    SourceView { writes_paused: true, ..n.sources[range] },
                ),
                ..n
            };
            &&& paused.read(m.key, now) == n.read(m.key, now)
            &&& paused.decide(m, ready, journal, now) is Refused
        }),
{
    let paused = NodeView {
        sources: n.sources.insert(range, SourceView { writes_paused: true, ..n.sources[range] }),
        ..n
    };
    assert(paused.sources.contains_key(range));
    assert(paused.token(m.key) == n.token(m.key));
    assert(paused.owner_fault(m.key, now) == n.owner_fault(m.key, now));
    assert(paused.paused_at(paused.token(m.key)));
}

/// A range that was copied takes no new write before writes to it are activated.
pub proof fn law_copied_ranges_wait_for_activation(
    n: NodeView,
    range: (Seq<char>, Seq<char>),
    m: MutationView,
    ready: Seq<Seq<char>>,
    journal: nat,
    now: u64,
)
    requires
        n.destinations.contains_key(range),
        !n.destinations[range].writes_activated,
        n.destinations[range].range.covers(n.token(m.key)),
        recall(n.receipts, m) is Unknown,
    ensures
        n.decide(m, ready, journal, now) is Refused,
{
    assert(n.inactive_at(n.token(m.key)));
}

/// A node whose writes are fenced takes no new write, and reads as before.
pub proof fn law_fenced_nodes_are_read_and_not_written(
    n: NodeView,
    fence: (Seq<char>, u64),
    m: MutationView,
    ready: Seq<Seq<char>>,
    journal: nat,
    now: u64,
)
    requires
        recall(n.receipts, m) is Unknown,
    ensures
        ({
            let fenced = NodeView { policy_write_fence: Some(fence), ..n };
            &&& fenced.read(m.key, now) == n.read(m.key, now)
            &&& fenced.decide(m, ready, journal, now) is Refused
        }),
{
    let fenced = NodeView { policy_write_fence: Some(fence), ..n };
    assert(fenced.owner_fault(m.key, now) == n.owner_fault(m.key, now));
}

} // verus!
