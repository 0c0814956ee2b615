//! What a node is asked for and how it is told: requests, pages, batches and reports.
use crate::errors::StatusView;
use crate::migration::MigrationPhase;
use crate::node::{default_limits, DestinationView, NodeView, SourceMigration, SpecView};
use crate::node_apply::{
    journal_run, journal_step, receipt_run, receipt_step, snapshot_run, snapshot_step, unexpired,
};
use crate::node_put::{delete_of, put_of};
use crate::node_ranges::{fresh_destination, fresh_source};
use crate::node_ready::admitted_for;
use crate::node_write::covering;
use crate::ordmap::total;
use crate::receipts::DedupView;
use crate::records::{page_bytes, JournalView, MigrationRecordView};
use crate::ring::in_interval;
use crate::status::{served_from, RangeStatusView};
use crate::topology::{default_config, SnapshotView, TopologySnapshot, WriteAckPolicy};
use crate::trial::finds_nothing;
use crate::client::ClientError;
use crate::errors::ErrorCode;
use crate::wire::{pending_topology, received, WireChange, WirePhase};
use crate::write_laws::law_admissions_are_taken_over;
use vstd::prelude::*;

verus! {

/// A put writes its value and a delete none; both under the id that they came with.
pub proof fn law_requests_are_taken_as_they_are(key: Seq<u8>, value: Seq<u8>, id: Seq<char>)
    ensures
        put_of(key, value, id).key == key,
        put_of(key, value, id).value == value,
        put_of(key, value, id).request_id == id,
        !put_of(key, value, id).deleted,
        delete_of(key, id).key == key,
        delete_of(key, id).value.len() == 0,
        delete_of(key, id).request_id == id,
        delete_of(key, id).deleted,
{
}

/// By default a key may have 64 KiB, a value 8 MiB, and the journals of a node 16 MiB and its memory
/// of writes 128 MiB together; three copies are desired, and the owner alone may take writes.
pub proof fn law_defaults_let_owners_write()
    ensures
        default_limits().max_key_bytes == 65_536,
        default_limits().max_value_bytes == 8_388_608,
        default_limits().max_journal_bytes == 16_777_216,
        default_limits().max_dedup_bytes == 134_217_728,
        default_config().desired_replication_factor == 3,
        default_config().write_ack_policy == WriteAckPolicy::OwnerOnly,
        default_config().write_availability_guard.minimum_admitted_copies == 1,
        default_config().write_availability_guard.minimum_healthy_followers == 0,
        default_config().write_availability_guard.max_replica_lag_millis == 5_000,
{
}

/// A range begins empty at both ends: nothing copied, nothing journaled, and writes neither held back
/// at the source nor let in at the destination.
pub proof fn law_ranges_begin_empty(range: SpecView)
    ensures
        fresh_source(range).range == range,
        fresh_source(range).snapshot_keys is None,
        fresh_source(range).snapshot_dedup_ids.len() == 0,
        fresh_source(range).journal.len() == 0,
        fresh_source(range).journal_bytes == 0,
        fresh_source(range).watermark == 0,
        !fresh_source(range).writes_paused,
        fresh_destination(range).range == range,
        fresh_destination(range).records.dom() == Set::<Seq<u8>>::empty(),
        fresh_destination(range).dedup.dom() == Set::<Seq<char>>::empty(),
        fresh_destination(range).watermark == 0,
        !fresh_destination(range).committed,
        !fresh_destination(range).writes_activated,
{
}

/// A page has as many bytes as are asked for, at least one and 8 MiB at most.
pub proof fn law_pages_have_the_size_asked_for(requested: u64)
    ensures
        1 <= page_bytes(requested) <= 8_388_608,
        1 <= requested <= 8_388_608 ==> page_bytes(requested) == requested,
        requested == 0 ==> page_bytes(requested) == 1,
        requested > 8_388_608 ==> page_bytes(requested) == 8_388_608,
{
}

/// A snapshot is read exactly of a prepared range whose keys are listed, from a place in the list or
/// its end on; and so are its receipts.
pub proof fn law_prepared_snapshots_are_read(
    n: NodeView,
    range: (Seq<char>, Seq<char>),
    cursor: u64,
)
    requires
        cursor <= usize::MAX,
    ensures
        ({
            let source = n.sources[range];
            let listed = n.sources.contains_key(range) && source.snapshot_keys is Some;
            &&& n.snapshot_read_fault(range, cursor) is None <==> listed && cursor
                <= source.snapshot_keys->0.len()
            &&& n.receipt_read_fault(range, cursor) is None <==> listed && cursor
                <= source.snapshot_dedup_ids.len()
        }),
{
}

/// A range takes batches exactly while it is prepared and not taken over.
pub proof fn law_staging_ends_with_the_takeover(n: NodeView, range: (Seq<char>, Seq<char>))
    ensures
        n.staging_closed(range) is None <==> n.destinations.contains_key(range)
            && !n.destinations[range].committed,
{
}

/// Before a batch the receipts that have run out are dropped, and nothing else.
pub proof fn law_staged_receipts_run_out(d: DestinationView, now: u64, id: Seq<char>)
    ensures
        ({
            let after = unexpired(d, now);
            &&& after.dedup.contains_key(id) <==> d.dedup.contains_key(id) && d.dedup[id].expires_at
                > now
            &&& after.dedup.contains_key(id) ==> after.dedup[id] == d.dedup[id]
            &&& after == (DestinationView { dedup: after.dedup, ..d })
        }),
{
}

/// A batch is applied one after the other and ends with the first that is refused: what comes before
/// stays applied, and nothing after it is.
pub proof fn law_batches_are_applied_in_order(
    d: DestinationView,
    t: SnapshotView,
    records: Seq<MigrationRecordView>,
    lines: Seq<JournalView>,
    receipts: Seq<DedupView>,
    limit: nat,
    now: u64,
    i: nat,
)
    ensures
        i >= records.len() ==> snapshot_run(d, t, records, i) == (d, None::<StatusView>),
        i < records.len() ==> {
            let (e, fault) = snapshot_step(d, t, records[i as int]);
            snapshot_run(d, t, records, i) == if fault is Some {
                (e, fault)
            } else {
                snapshot_run(e, t, records, i + 1)
            }
        },
        i >= lines.len() ==> journal_run(d, t, lines, limit, now, i) == (d, None::<StatusView>),
        i < lines.len() ==> {
            let (e, fault) = journal_step(d, t, lines[i as int], limit, now);
            journal_run(d, t, lines, limit, now, i) == if fault is Some {
                (e, fault)
            } else {
                journal_run(e, t, lines, limit, now, i + 1)
            }
        },
        i >= receipts.len() ==> receipt_run(d, t, receipts, limit, now, i) == (
            d,
            None::<StatusView>,
        ),
        i < receipts.len() ==> {
            let (e, fault) = receipt_step(d, t, receipts[i as int], limit, now);
            receipt_run(d, t, receipts, limit, now, i) == if fault is Some {
                (e, fault)
            } else {
                receipt_run(e, t, receipts, limit, now, i + 1)
            }
        },
{
}

/// A batch of records and lines begins with the records; the lines follow if all of them were taken.
pub proof fn law_records_come_before_lines(
    n: NodeView,
    range: (Seq<char>, Seq<char>),
    records: Seq<MigrationRecordView>,
    lines: Seq<JournalView>,
    now: u64,
)
    ensures
        ({
            let (d, fault) = snapshot_run(
                unexpired(n.destinations[range], now),
                n.topology,
                records,
                0,
            );
            let r = n.staged_batch(range, records, lines, now);
            &&& fault is Some ==> r == (d, fault)
            &&& fault is None ==> r == journal_run(
                d,
                n.topology,
                lines,
                n.limits.max_dedup_bytes as nat,
                now,
                0,
            )
        }),
{
}

/// The admitted followers of an owner are exactly those that a range of that owner names as admitted.
pub proof fn law_owners_take_over_their_admissions(
    owner: Seq<char>,
    ranges: Seq<RangeStatusView>,
    n: nat,
    node: Seq<char>,
)
    requires
        n <= ranges.len(),
    ensures
        admitted_for(owner, ranges, n).contains_key(node) <==> exists|i: int, k: int|
            0 <= i < n && ranges[i].owner_node_id == owner && 0 <= k < ranges[i].followers.len()
                && (#[trigger] ranges[i].followers[k]).admitted && ranges[i].followers[k].node_id
                == node,
    decreases n,
{
    if n > 0 {
        law_owners_take_over_their_admissions(owner, ranges, (n - 1) as nat, node);
        let before = admitted_for(owner, ranges, (n - 1) as nat);
        let range = ranges[n - 1];
        law_admissions_are_taken_over(before, range.followers, range.followers.len(), node);
        if before.contains_key(node) {
            let (i, k) = choose|i: int, k: int|
                0 <= i < n - 1 && ranges[i].owner_node_id == owner && 0 <= k
                    < ranges[i].followers.len() && (#[trigger] ranges[i].followers[k]).admitted
                    && ranges[i].followers[k].node_id == node;
            assert(ranges[i].followers[k].node_id == node);
        }
        if range.owner_node_id == owner && exists|k: int|
            0 <= k < range.followers.len() && (#[trigger] range.followers[k]).admitted
                && range.followers[k].node_id == node {
            let k = choose|k: int|
                0 <= k < range.followers.len() && (#[trigger] range.followers[k]).admitted
                    && range.followers[k].node_id == node;
            assert(ranges[n - 1].followers[k].node_id == node);
        }
        if exists|i: int, k: int|
            0 <= i < n && ranges[i].owner_node_id == owner && 0 <= k < ranges[i].followers.len()
                && (#[trigger] ranges[i].followers[k]).admitted && ranges[i].followers[k].node_id
                == node {
            let (i, k) = choose|i: int, k: int|
                0 <= i < n && ranges[i].owner_node_id == owner && 0 <= k
                    < ranges[i].followers.len() && (#[trigger] ranges[i].followers[k]).admitted
                    && ranges[i].followers[k].node_id == node;
            if i < n - 1 {
                assert(ranges[i].followers[k].node_id == node);
            } else {
                assert(range.followers[k].admitted);
            }
        }
    }
}

/// A range of this owner has the token.
pub open spec fn serves_token(r: RangeStatusView, owner: Seq<char>, token: u64) -> bool {
    r.owner_node_id == owner && in_interval(r.start_exclusive, r.end_inclusive, token)
}

/// Of the ranges that a status of the present epoch tells of, the first one of the owner that has the
/// token counts; a status of another epoch tells nothing.
pub proof fn law_current_reports_count(
    t: SnapshotView,
    epoch: u64,
    ranges: Seq<RangeStatusView>,
    owner: Seq<char>,
    token: u64,
    i: nat,
)
    requires
        i <= ranges.len(),
    ensures
        served_from(ranges, owner, token, i) is Some <==> exists|k: int|
            i <= k < ranges.len() && serves_token(#[trigger] ranges[k], owner, token),
        served_from(ranges, owner, token, i) matches Some(r) ==> serves_token(r, owner, token)
            && ranges.contains(r),
        t.reported(epoch, ranges, owner, token) == if epoch == t.epoch {
            served_from(ranges, owner, token, 0)
        } else {
            None
        },
    decreases ranges.len() - i,
{
    if i < ranges.len() {
        law_current_reports_count(t, epoch, ranges, owner, token, i + 1);
        if served_from(ranges, owner, token, i + 1) is Some {
            let k = choose|k: int|
                i + 1 <= k < ranges.len() && serves_token(#[trigger] ranges[k], owner, token);
            assert(serves_token(ranges[k], owner, token));
        }
        if serves_token(ranges[i as int], owner, token) {
            assert(ranges.contains(ranges[i as int]));
        }
    }
}

/// A write is journaled once for every range on the move that has its token.
pub proof fn law_lines_are_counted<I>(sources: Seq<(I, SourceMigration)>, token: u64)
    ensures
        total(sources, covering(token)) == sources.filter(
            |s: (I, SourceMigration)|
                in_interval(s.1.range.start_exclusive, s.1.range.end_inclusive, token),
        ).len(),
    decreases sources.len(),
{
    reveal(Seq::filter);
    if sources.len() > 0 {
        law_lines_are_counted(sources.drop_last(), token);
    }
}

/// A topology is pending exactly while a change that tells its target is neither complete nor
/// aborted.
pub proof fn law_pending_topologies_are_known(change: WireChange)
    ensures
        ({
            let over = change.phase == WirePhase::Known(MigrationPhase::Complete) || change.phase
                == WirePhase::Known(MigrationPhase::Aborted);
            let r = pending_topology(Some(change));
            &&& over || change.target_topology is None ==> r == Ok::<
                Option<TopologySnapshot>,
                crate::topology::TopologyError,
            >(None)
            &&& !over && change.target_topology is Some ==> (r is Ok <==> received(
                change.target_topology->0,
            ) is Ok)
            &&& !over && change.target_topology is Some && r is Ok ==> r->Ok_0 is Some
                && received(change.target_topology->0)->Ok_0 == r->Ok_0->0
        }),
{
}

/// A read finds nothing exactly if the operation failed because the key is not there.
pub proof fn law_absence_is_told_apart(error: ClientError)
    ensures
        finds_nothing(error) <==> (error matches ClientError::Operation(failure) && failure.code
            == ErrorCode::NotFound),
{
}

} // verus!
