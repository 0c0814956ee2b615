//! How ranges, receipts and topologies come to a node, and how they leave it.
use crate::node::{DestinationView, NodeView, SpecView};
use crate::node_apply::{journal_step, receipt_step, snapshot_step};
use crate::node_checkpoint::{followed_intervals, CheckpointView};
use crate::node_control::{lists, probed};
use crate::node_pages::{line_window, outgoing_receipt, receipt_page};
use crate::node_ranges::{is_repair, keys_within, listed_keys, names_within};
use crate::node_receipts::spent;
use crate::node_takeover::{added_bytes, merged};
use crate::order::Position;
use crate::ordmap::{lemma_listing_of, listing_of};
use crate::receipts::{
    mutation_print, staged_bytes, staging_fault, window_left, with_staged, DedupView, ReceiptView,
    StagedView,
};
use crate::records::{version_position, JournalView, MigrationRecordView, RecordView};
use crate::ring::{in_interval, RangeView};
use crate::text::byte_count;
use crate::topology::{validation_error, MemberView, SnapshotView, TopologySnapshot};
use crate::topology_laws::distinct_ids;
use vstd::prelude::*;

verus! {

/// A token lies in a range exactly if it comes after the start and not after the end, going round;
/// a range that ends where it starts is the whole ring. Two ranges that share a border have no token
/// in common unless one of them is the whole ring.
pub proof fn law_intervals_go_round(start: u64, end: u64, t: u64)
    ensures
        start < end ==> (in_interval(start, end, t) <==> start < t <= end),
        start > end ==> (in_interval(start, end, t) <==> !(end < t <= start)),
        start == end ==> in_interval(start, end, t),
        start != end ==> (in_interval(start, end, t) <==> !in_interval(end, start, t)),
{
}

/// A range is prepared at its source, and at its destination, exactly where this node is that and the
/// range was not prepared differently before.
pub proof fn law_ranges_are_prepared_at_their_ends(n: NodeView, range: SpecView)
    ensures
        n.source_fault(range) is None <==> range.source_node_id == n.node_id && (
        n.sources.contains_key((range.change_id, range.range_id)) ==> n.sources[(
            range.change_id,
            range.range_id,
        )].range == range),
        n.destination_fault(range) is None <==> range.destination_node_id == n.node_id && (
        n.destinations.contains_key((range.change_id, range.range_id)) ==> n.destinations[(
            range.change_id,
            range.range_id,
        )].range == range),
        n.snapshot_fault(range) is None <==> n.sources.contains_key(
            (range.change_id, range.range_id),
        ) && n.sources[(range.change_id, range.range_id)].range == range,
{
}

/// A snapshot lists exactly the keys that lie in the range.
pub proof fn law_snapshots_list_the_range(
    keys: Seq<Seq<u8>>,
    t: SnapshotView,
    range: SpecView,
    n: nat,
    key: Seq<u8>,
)
    requires
        n <= keys.len(),
    ensures
        keys_within(keys, t, range, n).contains(key) <==> keys.take(n as int).contains(key)
            && in_interval(range.start_exclusive, range.end_inclusive, t.key_token(key)),
    decreases n,
{
    if n > 0 {
        law_snapshots_list_the_range(keys, t, range, (n - 1) as nat, key);
        let before = keys_within(keys, t, range, (n - 1) as nat);
        let after = keys_within(keys, t, range, n);
        let head = keys.take(n - 1);
        let all = keys.take(n as int);
        if head.contains(key) {
            let i = choose|i: int| 0 <= i < head.len() && head[i] == key;
            assert(all[i] == key);
        }
        if all.contains(key) {
            let i = choose|i: int| 0 <= i < all.len() && all[i] == key;
            if i < n - 1 {
                assert(head[i] == key);
            }
        }
        assert(all[n - 1] == keys[n - 1]);
        if before.contains(key) {
            let i = choose|i: int| 0 <= i < before.len() && before[i] == key;
            assert(after[i] == key);
        }
        if after.contains(key) {
            let i = choose|i: int| 0 <= i < after.len() && after[i] == key;
            if i < before.len() {
                assert(before[i] == key);
            }
        }
        if range.covers(t.key_token(keys[n - 1])) {
            assert(after[before.len() as int] == keys[n - 1]);
        }
    }
}

/// A snapshot lists exactly the writes whose key lies in the range.
pub proof fn law_snapshots_list_writes_of_the_range(
    list: Seq<(Seq<char>, Seq<u8>)>,
    t: SnapshotView,
    range: SpecView,
    n: nat,
    id: Seq<char>,
)
    requires
        n <= list.len(),
    ensures
        names_within(list, t, range, n).contains(id) <==> exists|i: int|
            0 <= i < n && (#[trigger] list[i]).0 == id && in_interval(
                range.start_exclusive,
                range.end_inclusive,
                t.key_token(list[i].1),
            ),
    decreases n,
{
    if n > 0 {
        law_snapshots_list_writes_of_the_range(list, t, range, (n - 1) as nat, id);
        let before = names_within(list, t, range, (n - 1) as nat);
        let after = names_within(list, t, range, n);
        if before.contains(id) {
            let i = choose|i: int| 0 <= i < before.len() && before[i] == id;
            assert(after[i] == id);
        }
        if after.contains(id) {
            let i = choose|i: int| 0 <= i < after.len() && after[i] == id;
            if i < before.len() {
                assert(before[i] == id);
            } else {
                assert(list[n - 1].0 == id);
            }
        }
        if range.covers(t.key_token(list[n - 1].1)) {
            assert(after[before.len() as int] == list[n - 1].0);
        }
    }
}

/// What a source captures has every key that it holds.
pub proof fn law_every_key_is_captured(records: Map<Seq<u8>, RecordView>, key: Seq<u8>)
    requires
        records.dom().finite(),
    ensures
        listed_keys(records).contains(key) <==> records.contains_key(key),
{
    lemma_listing_of::<Vec<u8>, RecordView>(records);
    let l = listing_of::<Vec<u8>, RecordView>(records);
    let keys = listed_keys(records);
    if records.contains_key(key) {
        assert(l.contains((key, records[key])));
        let i = choose|i: int| 0 <= i < l.len() && l[i] == (key, records[key]);
        assert(keys[i] == key);
    }
    if keys.contains(key) {
        let i = choose|i: int| 0 <= i < keys.len() && keys[i] == key;
        assert(records.contains_key(l[i].0));
    }
}

/// Cleaning up after a move drops exactly the records of the range of which this node is to hold no
/// copy, and forgets the range; a range that is not known changes nothing.
pub proof fn law_moved_records_are_dropped(
    n: NodeView,
    range: (Seq<char>, Seq<char>),
    key: Seq<u8>,
)
    ensures
        ({
            let after = n.cleaned(range);
            let spec = n.sources[range].range;
            let token = n.topology.key_token(key);
            &&& !n.sources.contains_key(range) ==> after == n
            &&& n.sources.contains_key(range) ==> {
                &&& after.records.contains_key(key) <==> n.records.contains_key(key) && (
                !in_interval(spec.start_exclusive, spec.end_inclusive, token)
                    || n.topology.replicas(token).contains(n.node_id))
                &&& after.records.contains_key(key) ==> after.records[key] == n.records[key]
                &&& after.sources == n.sources.remove(range)
                &&& after.destinations == n.destinations
                &&& after.receipts == n.receipts
            }
        }),
{
}

/// The range of a repair is told by how the name of its change begins.
pub proof fn law_repairs_are_named_so(rest: Seq<char>, other: Seq<char>)
    ensures
        is_repair("repair-"@ + rest),
        is_repair(other) ==> exists|tail: Seq<char>| other == "repair-"@ + tail,
{
    reveal_strlit("repair-");
    let name = "repair-"@ + rest;
    assert(name.subrange(0, 7) =~= "repair-"@);
    if is_repair(other) {
        let tail = other.subrange(7, other.len() as int);
        assert(other =~= "repair-"@ + tail);
    }
}

/// A new topology is installed exactly if it is valid and not older than the present one.
pub proof fn law_newer_topologies_are_installed(n: NodeView, t: TopologySnapshot)
    ensures
        n.install_fault(t) is None <==> validation_error(t) is None && t.epoch >= n.topology.epoch,
{
}

/// Under a topology of another epoch a node has no lease and no repairs under way, and what it knew of
/// its followers is forgotten if that is asked for; the same epoch takes nothing of that away. The
/// streams of the new epoch stay, and those of others end.
pub proof fn law_new_epochs_begin_clean(
    n: NodeView,
    t: SnapshotView,
    forget: bool,
    stream: (u64, Seq<char>),
    range: (Seq<char>, Seq<char>),
)
    ensures
        ({
            let after = n.under(t, forget);
            let same = t.epoch == n.topology.epoch;
            &&& after.topology == t
            &&& after.lease == if same {
                n.lease
            } else {
                None
            }
            &&& after.admitted_followers == if same || !forget {
                n.admitted_followers
            } else {
                Map::empty()
            }
            &&& after.follower_streams.contains_key(stream) <==> n.follower_streams.contains_key(
                stream,
            ) && stream.0 == t.epoch
            &&& after.follower_streams.contains_key(stream) ==> after.follower_streams[stream]
                == n.follower_streams[stream]
            &&& after.owner_stream_sequences.contains_key(stream)
                <==> n.owner_stream_sequences.contains_key(stream) && stream.0 == t.epoch
            &&& after.owner_stream_sequences.contains_key(stream)
                ==> after.owner_stream_sequences[stream] == n.owner_stream_sequences[stream]
            &&& after.owner_stream_unacked.contains_key(stream)
                <==> n.owner_stream_unacked.contains_key(stream) && stream.0 == t.epoch
            &&& after.owner_stream_unacked.contains_key(stream)
                ==> after.owner_stream_unacked[stream] == n.owner_stream_unacked[stream]
            &&& after.sources.contains_key(range) <==> n.sources.contains_key(range) && (same
                || !is_repair(range.0))
            &&& after.sources.contains_key(range) ==> after.sources[range] == n.sources[range]
            &&& after.destinations.contains_key(range) <==> n.destinations.contains_key(range) && (
            same || !is_repair(range.0))
            &&& after.destinations.contains_key(range) ==> after.destinations[range]
                == n.destinations[range]
            &&& after.records == n.records
            &&& after.receipts == n.receipts
            &&& after.next_sequence == n.next_sequence
            &&& after.policy_write_fence == n.policy_write_fence
        }),
{
}

/// A lease is taken exactly where it was asked for, granted and is wanted under the same epoch, and
/// counts from when it was asked for.
pub proof fn law_leases_count_from_the_request(
    n: NodeView,
    requested: u64,
    answered: u64,
    duration: u64,
    sent_at: u64,
    now: u64,
)
    requires
        sent_at + duration <= u64::MAX,
    ensures
        ({
            let after = n.with_lease(requested, answered, duration, sent_at);
            let taken = answered == requested && duration > 0 && n.topology.epoch == requested;
            &&& taken ==> after.lease == Some((requested, (sent_at + duration) as u64))
            &&& taken ==> (after.leased(now) <==> now < sent_at + duration)
            &&& !taken ==> after == n
            &&& after == (NodeView { lease: after.lease, ..n })
        }),
{
}

/// A node is stopped exactly as the process that is meant.
pub proof fn law_stops_are_meant_for_a_process(
    n: NodeView,
    node: Seq<char>,
    instance: Seq<char>,
)
    ensures
        n.stop_fault(node, instance) is None <==> node == n.node_id && instance
            == n.process_instance_id,
{
}

/// A record of a snapshot is staged exactly if it lies in the range, has a version, and no value if
/// it is deleted; a newer one that is there stays.
pub proof fn law_snapshot_records_are_staged(
    d: DestinationView,
    t: SnapshotView,
    r: MigrationRecordView,
)
    ensures
        ({
            let (after, fault) = snapshot_step(d, t, r);
            let newer = !d.records.contains_key(r.key) || version_position(
                r.version->0,
                d.records[r.key].version,
            ) == Position::After;
            &&& fault is None <==> in_interval(
                d.range.start_exclusive,
                d.range.end_inclusive,
                t.key_token(r.key),
            ) && r.version is Some && (r.deleted ==> r.value.len() == 0)
            &&& fault is Some ==> after == d
            &&& fault is None ==> after == (DestinationView {
                records: if newer {
                    d.records.insert(
                        r.key,
                        RecordView { value: r.value, version: r.version->0, deleted: r.deleted },
                    )
                } else {
                    d.records
                },
                ..d
            })
        }),
{
    reveal(snapshot_step);
}

/// A receipt that comes with a range can be kept: it is complete, and the same or there is room.
pub open spec fn keepable(
    staged: Map<Seq<char>, StagedView>,
    r: DedupView,
    limit: nat,
) -> bool {
    ||| r.remaining_window_millis == 0
    ||| {
        &&& r.mutation_id.len() > 0
        &&& byte_count(r.mutation_id) <= 128
        &&& r.fingerprint.len() == 32
        &&& r.version is Some
        &&& if staged.contains_key(r.mutation_id) {
            let known = staged[r.mutation_id].record;
            known.key == r.key && known.fingerprint == r.fingerprint && known.version == r.version
                && known.deleted == r.deleted
        } else {
            staged_bytes(staged) + 2 * byte_count(r.mutation_id) + r.key.len() + byte_count(
                r.version->0.owner_node_id,
            ) + 272 <= limit
        }
    }
}

/// A receipt is staged exactly if it can be kept. It lives as long as it had left, a minute at most,
/// and one that was there already keeps the longer life; one with nothing left is not staged.
pub proof fn law_receipts_are_staged(
    staged: Map<Seq<char>, StagedView>,
    r: DedupView,
    limit: nat,
    now: u64,
)
    requires
        now + 60_000_000_000 <= u64::MAX,
    ensures
        staging_fault(staged, r, limit) is None <==> keepable(staged, r, limit),
        ({
            let after = with_staged(staged, r, now);
            let left = if r.remaining_window_millis < 60_000 {
                r.remaining_window_millis
            } else {
                60_000
            };
            let until = now + 1_000_000 * left;
            if r.remaining_window_millis == 0 {
                after == staged
            } else {
                let kept = after[r.mutation_id];
                &&& after == staged.insert(r.mutation_id, kept)
                &&& !staged.contains_key(r.mutation_id) ==> kept.record == r && kept.expires_at
                    == until
                &&& staged.contains_key(r.mutation_id) ==> {
                    &&& kept.record == staged[r.mutation_id].record
                    &&& kept.expires_at >= until
                    &&& kept.expires_at >= staged[r.mutation_id].expires_at
                    &&& kept.expires_at == until || kept.expires_at
                        == staged[r.mutation_id].expires_at
                }
            }
        }),
{
}

/// A receipt of a range is staged exactly if its key lies in the range and it can be kept.
pub proof fn law_receipts_of_the_range_are_staged(
    d: DestinationView,
    t: SnapshotView,
    r: DedupView,
    limit: nat,
    now: u64,
)
    ensures
        ({
            let (after, fault) = receipt_step(d, t, r, limit, now);
            &&& fault is None <==> in_interval(
                d.range.start_exclusive,
                d.range.end_inclusive,
                t.key_token(r.key),
            ) && keepable(d.dedup, r, limit)
            &&& fault is Some ==> after == d
            &&& fault is None ==> after == (DestinationView {
                dedup: with_staged(d.dedup, r, now),
                ..d
            })
        }),
{
    reveal(receipt_step);
}

/// The next line of a changelog is applied exactly if it carries a record of the range that is sound
/// and whose receipt can be kept; it brings the copy one further. A line from before changes nothing,
/// and one that would leave a gap is refused.
pub proof fn law_changelogs_are_applied_in_order(
    d: DestinationView,
    t: SnapshotView,
    line: JournalView,
    limit: nat,
    now: u64,
)
    requires
        d.watermark < u64::MAX,
    ensures
        ({
            let (after, fault) = journal_step(d, t, line, limit, now);
            let r = line.record->0;
            let receipt = DedupView {
                mutation_id: r.mutation_id,
                key: r.key,
                fingerprint: mutation_print(r.key, r.value, r.deleted),
                version: r.version,
                deleted: r.deleted,
                remaining_window_millis: r.remaining_window_millis,
            };
            let newer = !d.records.contains_key(r.key) || version_position(
                r.version->0,
                d.records[r.key].version,
            ) == Position::After;
            &&& fault is None <==> line.watermark <= d.watermark || {
                &&& line.watermark == d.watermark + 1
                &&& line.record is Some
                &&& in_interval(
                    d.range.start_exclusive,
                    d.range.end_inclusive,
                    t.key_token(r.key),
                )
                &&& r.version is Some
                &&& r.deleted ==> r.value.len() == 0
                &&& r.mutation_id.len() > 0 ==> keepable(d.dedup, receipt, limit)
            }
            &&& line.watermark <= d.watermark ==> after == d
            &&& fault is Some ==> after.records == d.records && after.watermark == d.watermark
            &&& fault is None && line.watermark > d.watermark ==> {
                &&& after.watermark == d.watermark + 1
                &&& after.records == if newer {
                    d.records.insert(
                        r.key,
                        RecordView { value: r.value, version: r.version->0, deleted: r.deleted },
                    )
                } else {
                    d.records
                }
                &&& after.dedup == if r.mutation_id.len() > 0 {
                    with_staged(d.dedup, receipt, now)
                } else {
                    d.dedup
                }
                &&& after.range == d.range
                &&& after.committed == d.committed
                &&& after.writes_activated == d.writes_activated
            }
        }),
{
    reveal(journal_step);
}

/// Of two sets of records the newer of each key is kept, and every key of both.
pub proof fn law_newer_records_win(
    base: Map<Seq<u8>, RecordView>,
    incoming: Map<Seq<u8>, RecordView>,
    key: Seq<u8>,
)
    ensures
        ({
            let both = merged(base, incoming);
            &&& both.contains_key(key) <==> base.contains_key(key) || incoming.contains_key(key)
            &&& base.contains_key(key) && !incoming.contains_key(key) ==> both[key] == base[key]
            &&& !base.contains_key(key) && incoming.contains_key(key) ==> both[key]
                == incoming[key]
            &&& base.contains_key(key) && incoming.contains_key(key) ==> both[key]
                == if version_position(incoming[key].version, base[key].version)
                == Position::After {
                incoming[key]
            } else {
                base[key]
            }
        }),
{
}

/// A staged range is taken over exactly if none of its live receipts contradicts one that is there
/// and all of them find room. Then the node has of the range exactly what was staged, outside of it
/// what it had, and every receipt of both.
pub proof fn law_staged_ranges_are_taken_over(
    n: NodeView,
    range: (Seq<char>, Seq<char>),
    now: u64,
    key: Seq<u8>,
    id: Seq<char>,
)
    requires
        n.destinations.contains_key(range),
        forall|k: Seq<u8>| #[trigger]
            n.destinations[range].records.contains_key(k) ==> in_interval(
                n.destinations[range].range.start_exclusive,
                n.destinations[range].range.end_inclusive,
                n.topology.key_token(k),
            ),
    ensures
        ({
            let d = n.destinations[range];
            let after = n.taken_over(range, now);
            let within = in_interval(
                d.range.start_exclusive,
                d.range.end_inclusive,
                n.topology.key_token(key),
            );
            let live = d.dedup.contains_key(id) && d.dedup[id].expires_at > now;
            &&& n.takeover_fault(d, now) is None <==> {
                &&& forall|x: Seq<char>| #[trigger]
                    d.dedup.contains_key(x) && d.dedup[x].expires_at > now
                        && n.receipts.contains_key(x) ==> n.receipts[x].fingerprint
                        == d.dedup[x].record.fingerprint && d.dedup[x].record.version == Some(
                        n.receipts[x].version,
                    ) && n.receipts[x].deleted == d.dedup[x].record.deleted
                &&& spent(n.receipts) + added_bytes(n.receipts, d.dedup, now)
                    <= n.limits.max_dedup_bytes
            }
            &&& within ==> (after.records.contains_key(key) <==> d.records.contains_key(key))
            &&& within && d.records.contains_key(key) ==> after.records[key] == d.records[key]
            &&& !within ==> (after.records.contains_key(key) <==> n.records.contains_key(key))
            &&& !within && n.records.contains_key(key) ==> after.records[key] == n.records[key]
            &&& after.receipts.contains_key(id) <==> n.receipts.contains_key(id) || live
            &&& n.receipts.contains_key(id) ==> after.receipts[id] == n.receipts[id]
            &&& !n.receipts.contains_key(id) && live ==> {
                let r = after.receipts[id];
                &&& r.key == d.dedup[id].record.key
                &&& r.fingerprint == d.dedup[id].record.fingerprint
                &&& d.dedup[id].record.version is Some ==> Some(r.version)
                    == d.dedup[id].record.version
                &&& r.deleted == d.dedup[id].record.deleted
                &&& r.expires_at == d.dedup[id].expires_at
                &&& r.required_acks.len() == 0
            }
            &&& after.destinations == n.destinations.insert(
                range,
                DestinationView { committed: true, ..d },
            )
            &&& after.sources == n.sources
        }),
{
}

/// What is left of a minute is told in milliseconds, rounded up, and never more than that.
pub proof fn law_windows_shrink(expires_at: u64, now: u64)
    ensures
        expires_at <= now ==> window_left(expires_at, now) == 0,
        expires_at > now ==> window_left(expires_at, now) >= 1,
        window_left(expires_at, now) <= 60_000,
        expires_at > now && expires_at - now <= 60_000_000_000 ==> 1_000_000 * (window_left(
            expires_at,
            now,
        ) - 1) < expires_at - now <= 1_000_000 * window_left(expires_at, now),
{
}

/// A line goes out with what is left of the receipt of the same write, and with nothing if there is
/// none.
pub proof fn law_lines_carry_their_window(
    receipts: Map<Seq<char>, ReceiptView>,
    r: MigrationRecordView,
    now: u64,
)
    ensures
        ({
            let receipt = receipts[r.mutation_id];
            let same = receipts.contains_key(r.mutation_id) && receipt.fingerprint
                == mutation_print(r.key, r.value, r.deleted) && r.version == Some(receipt.version);
            &&& !same ==> line_window(receipts, r, now) == 0
            &&& same ==> line_window(receipts, r, now) == window_left(receipt.expires_at, now)
        }),
{
}

/// A receipt goes out as it is.
pub proof fn law_receipts_go_out_as_they_are(id: Seq<char>, r: ReceiptView, now: u64)
    ensures
        ({
            let out = outgoing_receipt(id, r, now);
            &&& out.mutation_id == id
            &&& out.key == r.key
            &&& out.fingerprint == r.fingerprint
            &&& out.version == Some(r.version)
            &&& out.deleted == r.deleted
            &&& out.remaining_window_millis == window_left(r.expires_at, now)
        }),
{
}

/// The live receipts among the ids from `a` to `b`, as they go out.
pub open spec fn live_between(
    ids: Seq<Seq<char>>,
    receipts: Map<Seq<char>, ReceiptView>,
    now: u64,
    a: nat,
    b: nat,
) -> Seq<DedupView>
    decreases b,
{
    if b <= a {
        Seq::empty()
    } else {
        let rest = live_between(ids, receipts, now, a, (b - 1) as nat);
        let id = ids[b - 1];
        if receipts.contains_key(id) && receipts[id].expires_at > now {
            rest.push(outgoing_receipt(id, receipts[id], now))
        } else {
            rest
        }
    }
}

proof fn lemma_receipt_page(
    ids: Seq<Seq<char>>,
    receipts: Map<Seq<char>, ReceiptView>,
    limit: nat,
    now: u64,
    cursor: nat,
    i: nat,
    bytes: nat,
    page: Seq<DedupView>,
)
    requires
        cursor <= i <= ids.len(),
        page == live_between(ids, receipts, now, cursor, i),
    ensures
        ({
            let (whole, next) = receipt_page(ids, receipts, limit, now, i, bytes, page);
            &&& i <= next <= ids.len()
            &&& whole == live_between(ids, receipts, now, cursor, next)
            &&& page.len() == 0 && i < ids.len() ==> i < next
        }),
    decreases ids.len() - i,
{
    if i < ids.len() {
        let id = ids[i as int];
        if !receipts.contains_key(id) || receipts[id].expires_at <= now {
            lemma_receipt_page(ids, receipts, limit, now, cursor, i + 1, bytes, page);
        } else {
            let record = outgoing_receipt(id, receipts[id], now);
            let size = crate::receipts::dedup_record_bytes(record);
            if !(page.len() > 0 && bytes + size > limit) {
                lemma_receipt_page(
                    ids,
                    receipts,
                    limit,
                    now,
                    cursor,
                    i + 1,
                    bytes + size,
                    page.push(record),
                );
            }
        }
    }
}

/// A page of receipts has exactly the live ones from where it begins to where the next one begins,
/// and goes on.
pub proof fn law_receipt_pages_leave_nothing_out(
    ids: Seq<Seq<char>>,
    receipts: Map<Seq<char>, ReceiptView>,
    limit: nat,
    now: u64,
    cursor: nat,
)
    requires
        cursor <= ids.len(),
    ensures
        ({
            let (page, next) = receipt_page(ids, receipts, limit, now, cursor, 0, Seq::empty());
            &&& cursor <= next <= ids.len()
            &&& page == live_between(ids, receipts, now, cursor, next)
            &&& cursor < ids.len() ==> cursor < next
        }),
{
    assert(live_between(ids, receipts, now, cursor, cursor) =~= Seq::empty());
    lemma_receipt_page(ids, receipts, limit, now, cursor, cursor, 0, Seq::empty());
}

/// The progress of a stream is told by its two ends, in the present epoch, unless the owner has given
/// the stream up. The owner tells what it sent, what was acknowledged and since when something was
/// not; the follower tells what it applied.
pub proof fn law_stream_ends_tell_progress(
    n: NodeView,
    epoch: u64,
    owner: Seq<char>,
    follower: Seq<char>,
    given_up: bool,
)
    ensures
        ({
            let p = n.progress(owner, follower);
            let out = (n.topology.epoch, follower);
            let inward = (n.topology.epoch, owner);
            &&& n.progress_fault(epoch, owner, follower, given_up) is None <==> {
                &&& epoch == n.topology.epoch
                &&& owner.len() > 0
                &&& follower.len() > 0
                &&& n.node_id == owner || n.node_id == follower
                &&& n.node_id == owner ==> !given_up
            }
            &&& p.process_instance_id == n.process_instance_id
            &&& n.node_id == owner ==> {
                &&& n.owner_stream_sequences.contains_key(out) ==> p.stream_sequence
                    == n.owner_stream_sequences[out]
                &&& !n.owner_stream_sequences.contains_key(out) ==> p.stream_sequence == 0
                &&& n.ack_progress.contains_key(out) ==> p.last_ack_known && p.last_ack_sequence
                    == n.ack_progress[out]
                &&& !n.ack_progress.contains_key(out) ==> p.last_ack_sequence == 0 && (
                p.last_ack_known <==> p.stream_sequence == 0)
                &&& n.owner_stream_unacked.contains_key(out)
                    && n.owner_stream_unacked[out].len() > 0 ==> p.oldest_unacked_unix_millis
                    == n.owner_stream_unacked[out][0].1
                &&& !n.owner_stream_unacked.contains_key(out)
                    || n.owner_stream_unacked[out].len() == 0 ==> p.oldest_unacked_unix_millis == 0
            }
            &&& n.node_id != owner ==> {
                &&& n.follower_streams.contains_key(inward) ==> p.stream_sequence
                    == n.follower_streams[inward].applied_sequence
                &&& !n.follower_streams.contains_key(inward) ==> p.stream_sequence == 0
                &&& !p.last_ack_known
            }
        }),
{
}

/// The intervals of a stream are those of the ranges of its owner that this node follows.
pub proof fn law_streams_cover_followed_ranges(
    ranges: Seq<RangeView>,
    owner: Seq<char>,
    node: Seq<char>,
    n: nat,
    interval: (u64, u64),
)
    requires
        n <= ranges.len(),
    ensures
        followed_intervals(ranges, owner, node, n).contains(interval) <==> exists|i: int|
            0 <= i < n && (#[trigger] ranges[i]).owner_node_id == owner
                && ranges[i].follower_node_ids.contains(node) && interval == (
                ranges[i].start_exclusive,
                ranges[i].end_inclusive,
            ),
    decreases n,
{
    if n > 0 {
        law_streams_cover_followed_ranges(ranges, owner, node, (n - 1) as nat, interval);
        let before = followed_intervals(ranges, owner, node, (n - 1) as nat);
        let after = followed_intervals(ranges, owner, node, n);
        let r = ranges[n - 1];
        if before.contains(interval) {
            let i = choose|i: int| 0 <= i < before.len() && before[i] == interval;
            assert(after[i] == interval);
        }
        if after.contains(interval) {
            let i = choose|i: int| 0 <= i < after.len() && after[i] == interval;
            if i < before.len() {
                assert(before[i] == interval);
            } else {
                assert(ranges[n - 1].owner_node_id == owner);
            }
        }
        if r.owner_node_id == owner && r.follower_node_ids.contains(node) {
            assert(after[before.len() as int] == (r.start_exclusive, r.end_inclusive));
        }
    }
}

/// A range of a checkpoint was taken over from the owner to this node.
pub open spec fn verified_part(
    n: NodeView,
    owner: Seq<char>,
    key: (Seq<char>, Seq<char>),
) -> bool {
    &&& n.destinations.contains_key(key)
    &&& n.destinations[key].committed
    &&& n.destinations[key].range.source_node_id == owner
    &&& n.destinations[key].range.destination_node_id == n.node_id
}

proof fn lemma_parts(n: NodeView, owner: Seq<char>, keys: Seq<(Seq<char>, Seq<char>)>, i: nat)
    requires
        i <= keys.len(),
    ensures
        n.part_fault(owner, keys, i) is None <==> {
            &&& forall|k: int| i <= k < keys.len() ==> verified_part(n, owner, #[trigger] keys[k])
            &&& forall|j: int, k: int|
                0 <= j < k && i <= k < keys.len() ==> n.taken_interval(#[trigger] keys[j])
                    != n.taken_interval(#[trigger] keys[k])
        },
    decreases keys.len() - i,
{
    if i < keys.len() {
        lemma_parts(n, owner, keys, i + 1);
        let k = keys[i as int];
        let head = n.taken_intervals(keys).subrange(0, i as int);
        if head.contains(n.taken_interval(k)) {
            let j = choose|j: int| 0 <= j < head.len() && head[j] == n.taken_interval(k);
            assert(n.taken_interval(keys[j]) == n.taken_interval(keys[i as int]));
        } else {
            assert forall|j: int| 0 <= j < i implies n.taken_interval(#[trigger] keys[j])
                != n.taken_interval(k) by {
                assert(head[j] == n.taken_interval(keys[j]));
            }
        }
    }
}

/// A checkpoint is installed exactly if it is of this node and epoch, its ranges were taken over from
/// the owner, no two are the same, together they are all that the stream covers, and the stream does
/// not go back. The stream then stands where the checkpoint says, and nothing else changes.
pub proof fn law_complete_checkpoints_are_installed(n: NodeView, c: CheckpointView)
    ensures
        ({
            let whole = followed_intervals(
                n.topology.ranges(),
                c.owner_node_id,
                n.node_id,
                n.topology.ranges().len(),
            );
            let parts = c.verified_ranges;
            let stream = (n.topology.epoch, c.owner_node_id);
            &&& n.checkpoint_fault(c) is None <==> {
                &&& c.topology_epoch == n.topology.epoch
                &&& c.follower_node_id == n.node_id
                &&& whole.len() > 0
                &&& parts.len() == whole.len()
                &&& forall|k: int|
                    0 <= k < parts.len() ==> verified_part(n, c.owner_node_id, #[trigger] parts[k])
                &&& forall|j: int, k: int|
                    0 <= j < k < parts.len() ==> n.taken_interval(#[trigger] parts[j])
                        != n.taken_interval(#[trigger] parts[k])
                &&& n.taken_intervals(parts).to_set() == whole.to_set()
                &&& n.follower_streams.contains_key(stream) ==> c.stream_sequence
                    >= n.follower_streams[stream].applied_sequence
            }
            &&& ({
                let after = n.checkpointed(c);
                let at = (c.topology_epoch, c.owner_node_id);
                &&& after.follower_streams.contains_key(at)
                &&& after.follower_streams[at].applied_sequence == c.stream_sequence
                &&& after.follower_streams[at].checkpoint_sequence == c.stream_sequence
                &&& after.follower_streams.remove(at) == n.follower_streams.remove(at)
                &&& after == (NodeView { follower_streams: after.follower_streams, ..n })
            })
        }),
{
    lemma_parts(n, c.owner_node_id, c.verified_ranges, 0);
    let at = (c.topology_epoch, c.owner_node_id);
    assert(n.checkpointed(c).follower_streams.remove(at) =~= n.follower_streams.remove(at));
}

proof fn lemma_wrapped(x: int, n: int)
    requires
        0 <= x < 2 * n,
    ensures
        x % n == if x < n {
            x
        } else {
            x - n
        },
{
    if x < n {
        vstd::arithmetic::div_mod::lemma_small_mod(x as nat, n as nat);
    } else {
        vstd::arithmetic::div_mod::lemma_mod_add_multiples_vanish(x - n, n);
        vstd::arithmetic::div_mod::lemma_small_mod((x - n) as nat, n as nat);
    }
}

/// Members probe their two neighbours on either side and never themselves.
pub proof fn law_neighbours_are_probed(members: Seq<MemberView>, i: int, d: int)
    requires
        members.len() >= 5,
        distinct_ids(members),
        0 <= i < members.len(),
        d == 1 || d == 2 || d == members.len() - 1 || d == members.len() - 2,
    ensures
        lists(probed(members, i, 4), members[(i + d) % (members.len() as int)].node_id),
        probed(members, i, 4).len() == 4,
        !lists(probed(members, i, 4), members[i].node_id),
{
    let n = members.len() as int;
    let a = (i + 1) % n;
    let b = (i + 2) % n;
    let c = (i + n - 1) % n;
    let e = (i + n - 2) % n;
    lemma_wrapped(i + 1, n);
    lemma_wrapped(i + 2, n);
    lemma_wrapped(i + n - 1, n);
    lemma_wrapped(i + n - 2, n);
    assert(a != b && a != c && a != e && b != c && b != e && c != e && a != i && b != i && c != i
        && e != i);
    assert(0 <= a < n && 0 <= b < n && 0 <= c < n && 0 <= e < n);
    reveal_with_fuel(probed, 5);
    let p1 = seq![members[a]];
    let p2 = seq![members[a], members[b]];
    let p3 = seq![members[a], members[b], members[c]];
    let p4 = seq![members[a], members[b], members[c], members[e]];
    assert(members[a].node_id != members[i].node_id);
    assert(members[b].node_id != members[i].node_id);
    assert(members[c].node_id != members[i].node_id);
    assert(members[e].node_id != members[i].node_id);
    assert(members[b].node_id != members[a].node_id);
    assert(members[c].node_id != members[a].node_id && members[c].node_id != members[b].node_id);
    assert(members[e].node_id != members[a].node_id && members[e].node_id != members[b].node_id
        && members[e].node_id != members[c].node_id);
    assert(probed(members, i, 1) =~= p1);
    assert(probed(members, i, 2) =~= p2);
    assert(probed(members, i, 3) =~= p3);
    assert(probed(members, i, 4) =~= p4);
    assert(p4[0] == members[a] && p4[1] == members[b] && p4[2] == members[c] && p4[3]
        == members[e]);
}

} // verus!
