//! What arrives of a range that is taken over.
use crate::errors::{refusal, refused, Code, Status, StatusView};
use crate::node::{DataNode, DestinationMigration, DestinationView, NodeView};
use crate::node_checkpoint::RangeControl;
use crate::node_ranges::{missing_destination, no_destination};
use crate::node_receipts::lemma_shown_kept;
use crate::ordmap::kept;
use crate::receipts::{
    live_at, mutation_fingerprint, mutation_print, purge_staged_dedup, stage_dedup, staging_fault,
    with_staged, DedupView, DeduplicationRecord, StagedDedup, StagedView, IDEMPOTENCY_WINDOW_NANOS,
};
use crate::records::{
    apply_record, carried, copy_bytes, migration_record_fault, with_record, JournalRecord,
    JournalView, MigrationRecord, MigrationRecordView,
};
use crate::text::{around_number, decimal_text};
use crate::topology::{SnapshotView, TopologySnapshot};
use crate::views::{duplicate_opt, views, Duplicate};
use vstd::prelude::*;

verus! {

/// A staging area without the receipts that have expired.
pub open spec fn unexpired(d: DestinationView, now: u64) -> DestinationView {
    DestinationView {
        dedup: kept(d.dedup, |id: Seq<char>, s: StagedView| s.expires_at > now),
        ..d
    }
}

/// A staging area after a record of the snapshot, with what the record is refused for.
#[verifier::opaque]
pub open spec fn snapshot_step(d: DestinationView, t: SnapshotView, record: MigrationRecordView) -> (
    DestinationView,
    Option<StatusView>,
) {
    if !d.range.covers(t.key_token(record.key)) {
        (
            d,
            Some(
                refusal(
                    Code::InvalidArgument,
                    "snapshot record is outside the prepared range"@,
                ),
            ),
        )
    } else if migration_record_fault(record) is Some {
        (d, migration_record_fault(record))
    } else {
        (
            DestinationView {
                records: with_record(d.records, record.key, carried(record)),
                ..d
            },
            None,
        )
    }
}

/// The receipt that a journaled write brings.
pub open spec fn brought_receipt(record: MigrationRecordView) -> DedupView {
    DedupView {
        mutation_id: record.mutation_id,
        key: record.key,
        fingerprint: mutation_print(record.key, record.value, record.deleted),
        version: record.version,
        deleted: record.deleted,
        remaining_window_millis: record.remaining_window_millis,
    }
}

/// A staging area after the receipt of a journaled write.
pub open spec fn with_brought(d: DestinationView, record: MigrationRecordView, now: u64) -> DestinationView {
    if record.mutation_id.len() == 0 {
        d
    } else {
        DestinationView { dedup: with_staged(d.dedup, brought_receipt(record), now), ..d }
    }
}

/// A staging area after a line of the journal, with what the line is refused for.
#[verifier::opaque]
pub open spec fn journal_step(
    d: DestinationView,
    t: SnapshotView,
    line: JournalView,
    limit: nat,
    now: u64,
) -> (DestinationView, Option<StatusView>) {
    if line.watermark <= d.watermark {
        (d, None)
    } else if line.watermark != d.watermark + 1 {
        (
            d,
            Some(
                refusal(
                    Code::FailedPrecondition,
                    "non-contiguous changelog: expected "@ + decimal_text(
                        (d.watermark + 1) as nat,
                    ) + ", received "@ + decimal_text(line.watermark as nat) + ""@,
                ),
            ),
        )
    } else if line.record is None {
        (d, Some(refusal(Code::InvalidArgument, "journal entry omitted record"@)))
    } else {
        let record = line.record->0;
        let fault = staging_fault(d.dedup, brought_receipt(record), limit);
        let staged = with_brought(d, record, now);
        if !d.range.covers(t.key_token(record.key)) {
            (
                d,
                Some(
                    refusal(
                        Code::InvalidArgument,
                        "journal record is outside the prepared range"@,
                    ),
                ),
            )
        } else if record.mutation_id.len() > 0 && fault is Some {
            (d, fault)
        } else if migration_record_fault(record) is Some {
            (staged, migration_record_fault(record))
        } else {
            (
                DestinationView {
                    records: with_record(staged.records, record.key, carried(record)),
                    watermark: line.watermark,
                    ..staged
                },
                None,
            )
        }
    }
}

/// A staging area after a receipt, with what the receipt is refused for.
#[verifier::opaque]
pub open spec fn receipt_step(
    d: DestinationView,
    t: SnapshotView,
    record: DedupView,
    limit: nat,
    now: u64,
) -> (DestinationView, Option<StatusView>) {
    if !d.range.covers(t.key_token(record.key)) {
        (
            d,
            Some(
                refusal(Code::InvalidArgument, "dedup record is outside the prepared range"@),
            ),
        )
    } else if staging_fault(d.dedup, record, limit) is Some {
        (d, staging_fault(d.dedup, record, limit))
    } else {
        (DestinationView { dedup: with_staged(d.dedup, record, now), ..d }, None)
    }
}

/// A staging area after the records from `i` on, up to the first that is refused.
pub open spec fn snapshot_run(
    d: DestinationView,
    t: SnapshotView,
    records: Seq<MigrationRecordView>,
    i: nat,
) -> (DestinationView, Option<StatusView>)
    decreases records.len() - i,
{
    if i >= records.len() {
        (d, None)
    } else {
        let (e, fault) = snapshot_step(d, t, records[i as int]);
        if fault is Some {
            (e, fault)
        } else {
            snapshot_run(e, t, records, i + 1)
        }
    }
}

/// A staging area after the lines from `i` on, up to the first that is refused.
pub open spec fn journal_run(
    d: DestinationView,
    t: SnapshotView,
    lines: Seq<JournalView>,
    limit: nat,
    now: u64,
    i: nat,
) -> (DestinationView, Option<StatusView>)
    decreases lines.len() - i,
{
    if i >= lines.len() {
        (d, None)
    } else {
        let (e, fault) = journal_step(d, t, lines[i as int], limit, now);
        if fault is Some {
            (e, fault)
        } else {
            journal_run(e, t, lines, limit, now, i + 1)
        }
    }
}

/// A staging area after the receipts from `i` on, up to the first that is refused.
pub open spec fn receipt_run(
    d: DestinationView,
    t: SnapshotView,
    records: Seq<DedupView>,
    limit: nat,
    now: u64,
    i: nat,
) -> (DestinationView, Option<StatusView>)
    decreases records.len() - i,
{
    if i >= records.len() {
        (d, None)
    } else {
        let (e, fault) = receipt_step(d, t, records[i as int], limit, now);
        if fault is Some {
            (e, fault)
        } else {
            receipt_run(e, t, records, limit, now, i + 1)
        }
    }
}

impl DestinationMigration {
    fn drop_expired(&mut self, now: u64)
        requires
            old(self).wf(),
        ensures
            final(self).wf(),
            final(self)@ == unexpired(old(self)@, now),
            final(self).dedup.bytes <= old(self).dedup.bytes,
    {
        let ghost before = self.dedup.entries;
        let ghost d = self@;
        purge_staged_dedup(&mut self.dedup, now);
        proof {
            lemma_shown_kept(
                before,
                self.dedup.entries,
                live_at::<Seq<char>, StagedDedup>(now),
                |id: Seq<char>, s: StagedView| s.expires_at > now,
            );
            assert(self@ =~= unexpired(d, now));
        }
    }

    fn take_record(&mut self, topology: &TopologySnapshot, record: MigrationRecord) -> (r: Result<
        (),
        Status,
    >)
        requires
            old(self).wf(),
        ensures
            final(self).wf(),
            (final(self)@, refused(r)) == snapshot_step(old(self)@, topology@, record@),
            final(self).dedup == old(self).dedup,
    {
        proof {
            reveal(snapshot_step);
            reveal(receipt_step);
        }
        let ghost d = self@;
        if !self.range.contains(topology.key_token(record.key.as_slice())) {
            return Err(
                Status::new(
                    Code::InvalidArgument,
                    "snapshot record is outside the prepared range",
                ),
            );
        }
        let r = apply_record(&mut self.records, record);
        proof {
            assert(self@ =~= snapshot_step(d, topology@, record@).0);
        }
        r
    }

    fn take_receipt(
        &mut self,
        topology: &TopologySnapshot,
        record: DeduplicationRecord,
        limit: usize,
        now: u64,
    ) -> (r: Result<(), Status>)
        requires
            old(self).wf(),
            now + IDEMPOTENCY_WINDOW_NANOS <= u64::MAX,
        ensures
            final(self).wf(),
            (final(self)@, refused(r)) == receipt_step(
                old(self)@,
                topology@,
                record@,
                limit as nat,
                now,
            ),
            old(self).dedup.bytes <= limit ==> final(self).dedup.bytes <= limit,
    {
        proof {
            reveal(snapshot_step);
            reveal(receipt_step);
        }
        let ghost d = self@;
        if !self.range.contains(topology.key_token(record.key.as_slice())) {
            return Err(
                Status::new(Code::InvalidArgument, "dedup record is outside the prepared range"),
            );
        }
        let r = stage_dedup(&mut self.dedup, record, limit, now);
        proof {
            assert(self@ =~= receipt_step(d, topology@, record@, limit as nat, now).0);
        }
        r
    }

    fn take_line(
        &mut self,
        topology: &TopologySnapshot,
        line: &JournalRecord,
        limit: usize,
        now: u64,
    ) -> (r: Result<(), Status>)
        requires
            old(self).wf(),
            now + IDEMPOTENCY_WINDOW_NANOS <= u64::MAX,
        ensures
            final(self).wf(),
            (final(self)@, refused(r)) == journal_step(
                old(self)@,
                topology@,
                line@,
                limit as nat,
                now,
            ),
            old(self).dedup.bytes <= limit ==> final(self).dedup.bytes <= limit,
    {
        proof {
            reveal(journal_step);
        }
        let ghost d = self@;
        if line.watermark <= self.watermark {
            return Ok(());
        }
        if line.watermark != self.watermark + 1 {
            let before = around_number(
                "non-contiguous changelog: expected ",
                self.watermark + 1,
                ", received ",
            );
            let message = around_number(before.as_str(), line.watermark, "");
            return Err(Status { code: Code::FailedPrecondition, message: message });
        }
        let record = match &line.record {
            Some(record) => record.duplicate(),
            None => {
                return Err(Status::new(Code::InvalidArgument, "journal entry omitted record"));
            },
        };
        if !self.range.contains(topology.key_token(record.key.as_slice())) {
            return Err(
                Status::new(Code::InvalidArgument, "journal record is outside the prepared range"),
            );
        }
        if !record.mutation_id.as_str().is_empty() {
            let receipt = DeduplicationRecord {
                mutation_id: record.mutation_id.clone(),
                key: copy_bytes(record.key.as_slice()),
                fingerprint: mutation_fingerprint(
                    record.key.as_slice(),
                    record.value.as_slice(),
                    record.deleted,
                ),
                version: duplicate_opt(&record.version),
                deleted: record.deleted,
                remaining_window_millis: record.remaining_window_millis,
            };
            proof {
                assert(receipt@ =~= brought_receipt(record@));
            }
            if let Err(status) = stage_dedup(&mut self.dedup, receipt, limit, now) {
                proof {
                    assert(self@ =~= d);
                }
                return Err(status);
            }
        }
        proof {
            assert(self@ =~= with_brought(d, record@, now));
        }
        let ghost step = journal_step(d, topology@, line@, limit as nat, now);
        match apply_record(&mut self.records, record) {
            Err(status) => {
                proof {
                    assert(self@ =~= step.0);
                }
                Err(status)
            },
            Ok(_) => {
                self.watermark = line.watermark;
                proof {
                    assert(self@ =~= step.0);
                }
                Ok(())
            },
        }
    }

    fn take_records(&mut self, topology: &TopologySnapshot, records: &Vec<MigrationRecord>) -> (r: Result<
        (),
        Status,
    >)
        requires
            old(self).wf(),
        ensures
            final(self).wf(),
            (final(self)@, refused(r)) == snapshot_run(
                old(self)@,
                topology@,
                views(records@),
                0,
            ),
            final(self).dedup == old(self).dedup,
    {
        let ghost whole = snapshot_run(self@, topology@, views(records@), 0);
        let mut i: usize = 0;
        while i < records.len()
            invariant
                self.wf(),
                i <= records@.len(),
                self.dedup == old(self).dedup,
                whole == snapshot_run(old(self)@, topology@, views(records@), 0),
                whole == snapshot_run(self@, topology@, views(records@), i as nat),
            decreases records.len() - i,
        {
            proof {
                assert(views(records@)[i as int] == records@[i as int]@);
            }
            if let Err(status) = self.take_record(topology, records[i].duplicate()) {
                return Err(status);
            }
            i = i + 1;
        }
        Ok(())
    }

    fn take_lines(
        &mut self,
        topology: &TopologySnapshot,
        lines: &Vec<JournalRecord>,
        limit: usize,
        now: u64,
    ) -> (r: Result<(), Status>)
        requires
            old(self).wf(),
            now + IDEMPOTENCY_WINDOW_NANOS <= u64::MAX,
        ensures
            final(self).wf(),
            (final(self)@, refused(r)) == journal_run(
                old(self)@,
                topology@,
                views(lines@),
                limit as nat,
                now,
                0,
            ),
            old(self).dedup.bytes <= limit ==> final(self).dedup.bytes <= limit,
    {
        let ghost whole = journal_run(self@, topology@, views(lines@), limit as nat, now, 0);
        let mut i: usize = 0;
        while i < lines.len()
            invariant
                self.wf(),
                now + IDEMPOTENCY_WINDOW_NANOS <= u64::MAX,
                old(self).dedup.bytes <= limit ==> self.dedup.bytes <= limit,
                i <= lines@.len(),
                whole == journal_run(
                    old(self)@,
                    topology@,
                    views(lines@),
                    limit as nat,
                    now,
                    0,
                ),
                whole == journal_run(
                    self@,
                    topology@,
                    views(lines@),
                    limit as nat,
                    now,
                    i as nat,
                ),
            decreases lines.len() - i,
        {
            proof {
                assert(views(lines@)[i as int] == lines@[i as int]@);
            }
            if let Err(status) = self.take_line(topology, &lines[i], limit, now) {
                return Err(status);
            }
            i = i + 1;
        }
        Ok(())
    }

    fn take_receipts(
        &mut self,
        topology: &TopologySnapshot,
        records: &Vec<DeduplicationRecord>,
        limit: usize,
        now: u64,
    ) -> (r: Result<(), Status>)
        requires
            old(self).wf(),
            now + IDEMPOTENCY_WINDOW_NANOS <= u64::MAX,
        ensures
            final(self).wf(),
            (final(self)@, refused(r)) == receipt_run(
                old(self)@,
                topology@,
                views(records@),
                limit as nat,
                now,
                0,
            ),
            old(self).dedup.bytes <= limit ==> final(self).dedup.bytes <= limit,
    {
        let ghost whole = receipt_run(self@, topology@, views(records@), limit as nat, now, 0);
        let mut i: usize = 0;
        while i < records.len()
            invariant
                self.wf(),
                now + IDEMPOTENCY_WINDOW_NANOS <= u64::MAX,
                old(self).dedup.bytes <= limit ==> self.dedup.bytes <= limit,
                i <= records@.len(),
                whole == receipt_run(
                    old(self)@,
                    topology@,
                    views(records@),
                    limit as nat,
                    now,
                    0,
                ),
                whole == receipt_run(
                    self@,
                    topology@,
                    views(records@),
                    limit as nat,
                    now,
                    i as nat,
                ),
            decreases records.len() - i,
        {
            proof {
                assert(views(records@)[i as int] == records@[i as int]@);
            }
            if let Err(status) = self.take_receipt(
                topology,
                records[i].duplicate(),
                limit,
                now,
            ) {
                return Err(status);
            }
            i = i + 1;
        }
        Ok(())
    }
}

impl NodeView {
    /// A staging area after a batch of records and journal lines.
    pub open spec fn staged_batch(
        self,
        key: (Seq<char>, Seq<char>),
        records: Seq<MigrationRecordView>,
        lines: Seq<JournalView>,
        now: u64,
    ) -> (DestinationView, Option<StatusView>) {
        let (d, fault) = snapshot_run(
            unexpired(self.destinations[key], now),
            self.topology,
            records,
            0,
        );
        if fault is Some {
            (d, fault)
        } else {
            journal_run(
                d,
                self.topology,
                lines,
                self.limits.max_dedup_bytes as nat,
                now,
                0,
            )
        }
    }

    /// Why nothing can be staged for a range, if nothing can.
    pub open spec fn staging_closed(self, key: (Seq<char>, Seq<char>)) -> Option<StatusView> {
        if !self.destinations.contains_key(key) {
            Some(no_destination())
        } else if self.destinations[key].committed {
            Some(refusal(Code::FailedPrecondition, "destination range is already committed"@))
        } else {
            None
        }
    }

    /// The node with another staging area for a range.
    pub open spec fn with_destination(
        self,
        key: (Seq<char>, Seq<char>),
        d: DestinationView,
    ) -> NodeView {
        NodeView { destinations: self.destinations.insert(key, d), ..self }
    }
}

impl DataNode {
    /// The receipts that are staged for a range take no more than receipts may.
    pub open spec fn staging_in_room(self) -> bool {
        forall|k: (Seq<char>, Seq<char>)| #[trigger]
            self.destinations@.contains_key(k) ==> self.destinations@[k].dedup.bytes
                <= self.limits.max_dedup_bytes
    }

    /// Stages records and journal lines of a range. What comes before the first that is
    /// refused stays staged.
    pub fn apply_migration_batch(
        &mut self,
        control: &RangeControl,
        records: &Vec<MigrationRecord>,
        lines: &Vec<JournalRecord>,
        now: u64,
    ) -> (r: Result<(), Status>)
        requires
            old(self).wf(),
            now + IDEMPOTENCY_WINDOW_NANOS <= u64::MAX,
        ensures
            final(self).wf(),
            final(self).dedup_peak_bytes == old(self).dedup_peak_bytes,
            ({
                let closed = old(self)@.staging_closed(control@);
                let (d, fault) = old(self)@.staged_batch(
                    control@,
                    views(records@),
                    views(lines@),
                    now,
                );
                if closed is Some {
                    refused(r) == closed && final(self)@ == old(self)@
                } else {
                    refused(r) == fault && final(self)@ == old(self)@.with_destination(control@, d)
                }
            }),
            old(self).staging_in_room() ==> final(self).staging_in_room(),
    {
        let ghost start = *self;
        let (i, found) = self.destinations.locate(&control.key());
        if !found {
            return Err(missing_destination());
        }
        if self.destinations.value_at(i).committed {
            return Err(
                Status::new(Code::FailedPrecondition, "destination range is already committed"),
            );
        }
        let limit = self.limits.max_dedup_bytes;
        let destination = self.destinations.value_mut_at(i);
        let ghost d0 = destination@;
        destination.drop_expired(now);
        let mut r = destination.take_records(&self.topology, records);
        if r.is_ok() {
            r = destination.take_lines(&self.topology, lines, limit, now);
        }
        let ghost d1 = destination@;
        proof {
            assert(start@.destinations[control@] == d0);
            assert((d1, refused(r)) == start@.staged_batch(
                control@,
                views(records@),
                views(lines@),
                now,
            ));
            let n = start@.with_destination(control@, d1);
            assert(self@.destinations =~= n.destinations);
            assert(self@ =~= n);
        }
        r
    }

    /// Stages receipts of a range. What comes before the first that is refused stays staged.
    pub fn apply_dedup_batch(
        &mut self,
        control: &RangeControl,
        records: &Vec<DeduplicationRecord>,
        now: u64,
    ) -> (r: Result<(), Status>)
        requires
            old(self).wf(),
            now + IDEMPOTENCY_WINDOW_NANOS <= u64::MAX,
        ensures
            final(self).wf(),
            final(self).dedup_peak_bytes == old(self).dedup_peak_bytes,
            ({
                let closed = old(self)@.staging_closed(control@);
                let (d, fault) = receipt_run(
                    unexpired(old(self)@.destinations[control@], now),
                    old(self)@.topology,
                    views(records@),
                    old(self)@.limits.max_dedup_bytes as nat,
                    now,
                    0,
                );
                if closed is Some {
                    refused(r) == closed && final(self)@ == old(self)@
                } else {
                    refused(r) == fault && final(self)@ == old(self)@.with_destination(control@, d)
                }
            }),
            old(self).staging_in_room() ==> final(self).staging_in_room(),
    {
        let ghost start = *self;
        let (i, found) = self.destinations.locate(&control.key());
        if !found {
            return Err(missing_destination());
        }
        if self.destinations.value_at(i).committed {
            return Err(
                Status::new(Code::FailedPrecondition, "destination range is already committed"),
            );
        }
        let limit = self.limits.max_dedup_bytes;
        let destination = self.destinations.value_mut_at(i);
        let ghost d0 = destination@;
        destination.drop_expired(now);
        let r = destination.take_receipts(&self.topology, records, limit, now);
        let ghost d1 = destination@;
        proof {
            assert(start@.destinations[control@] == d0);
            let n = start@.with_destination(control@, d1);
            assert(self@.destinations =~= n.destinations);
            assert(self@ =~= n);
        }
        r
    }
}

} // verus!
