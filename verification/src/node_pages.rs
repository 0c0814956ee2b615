//! Pages in which a range is handed over.
use crate::errors::{refusal, refused, Code, Status, StatusView};
use crate::node::{DataNode, NodeView};
use crate::node_checkpoint::RangeControl;
use crate::node_ranges::{missing_source, no_source};
use crate::order::same_bytes;
use crate::receipts::{
    dedup_record_bytes, dedup_record_size, mutation_fingerprint, mutation_print,
    remaining_window_millis, window_left, DedupView, DeduplicationRecord, ReceiptView,
};
use crate::records::{
    copy_bytes, migration_record_bytes, migration_record_size, page_bytes, page_limit,
    JournalRecord, JournalView, MigrationRecord, MigrationRecordView, RecordView,
};
use crate::views::{lemma_views_push, views, Duplicate};
use vstd::prelude::*;

verus! {

/// A page of records.
#[derive(Debug)]
pub struct SnapshotPage {
    pub records: Vec<MigrationRecord>,
    pub next_cursor: u64,
    pub done: bool,
}

/// A page of receipts.
#[derive(Debug)]
pub struct DedupSnapshotPage {
    pub records: Vec<DeduplicationRecord>,
    pub next_cursor: u64,
    pub done: bool,
}

/// A page of the journal.
#[derive(Debug)]
pub struct ChangelogPage {
    pub records: Vec<JournalRecord>,
    pub current_watermark: u64,
}

/// A record as it is handed over.
pub open spec fn outgoing(key: Seq<u8>, record: RecordView) -> MigrationRecordView {
    MigrationRecordView {
        key: key,
        value: record.value,
        version: Some(record.version),
        deleted: record.deleted,
        mutation_id: Seq::empty(),
        remaining_window_millis: 0,
    }
}

/// The page that begins at key `i`, given what is on it already: records as long as they
/// fit, but at least one. Keys whose record is gone are passed over.
pub open spec fn snapshot_page(
    keys: Seq<Seq<u8>>,
    records: Map<Seq<u8>, RecordView>,
    limit: nat,
    i: nat,
    bytes: nat,
    page: Seq<MigrationRecordView>,
) -> (Seq<MigrationRecordView>, nat)
    decreases keys.len() - i,
{
    if i >= keys.len() {
        (page, i)
    } else if !records.contains_key(keys[i as int]) {
        snapshot_page(keys, records, limit, i + 1, bytes, page)
    } else {
        let record = outgoing(keys[i as int], records[keys[i as int]]);
        let size = migration_record_bytes(record);
        if page.len() > 0 && bytes + size > limit {
            (page, i)
        } else {
            snapshot_page(keys, records, limit, i + 1, bytes + size, page.push(record))
        }
    }
}

/// A receipt as it is handed over.
pub open spec fn outgoing_receipt(id: Seq<char>, r: ReceiptView, now: u64) -> DedupView {
    DedupView {
        mutation_id: id,
        key: r.key,
        fingerprint: r.fingerprint,
        version: Some(r.version),
        deleted: r.deleted,
        remaining_window_millis: window_left(r.expires_at, now) as u64,
    }
}

/// The page of receipts that begins at name `i`, given what is on it already.
pub open spec fn receipt_page(
    ids: Seq<Seq<char>>,
    receipts: Map<Seq<char>, ReceiptView>,
    limit: nat,
    now: u64,
    i: nat,
    bytes: nat,
    page: Seq<DedupView>,
) -> (Seq<DedupView>, nat)
    decreases ids.len() - i,
{
    if i >= ids.len() {
        (page, i)
    } else if !receipts.contains_key(ids[i as int]) || receipts[ids[i as int]].expires_at <= now {
        receipt_page(ids, receipts, limit, now, i + 1, bytes, page)
    } else {
        let record = outgoing_receipt(ids[i as int], receipts[ids[i as int]], now);
        let size = dedup_record_bytes(record);
        if page.len() > 0 && bytes + size > limit {
            (page, i)
        } else {
            receipt_page(ids, receipts, limit, now, i + 1, bytes + size, page.push(record))
        }
    }
}

/// What is left of the life of the receipt of a journaled write.
pub open spec fn line_window(
    receipts: Map<Seq<char>, ReceiptView>,
    record: MigrationRecordView,
    now: u64,
) -> u64 {
    let id = record.mutation_id;
    if receipts.contains_key(id) && receipts[id].fingerprint == mutation_print(
        record.key,
        record.value,
        record.deleted,
    ) && record.version == Some(receipts[id].version) {
        window_left(receipts[id].expires_at, now) as u64
    } else {
        0
    }
}

/// A journaled write as it is handed over.
pub open spec fn outgoing_line(
    receipts: Map<Seq<char>, ReceiptView>,
    line: JournalView,
    now: u64,
) -> JournalView {
    JournalView {
        record: match line.record {
            Some(record) => Some(
                MigrationRecordView {
                    remaining_window_millis: line_window(receipts, record, now),
                    ..record
                },
            ),
            None => None,
        },
        ..line
    }
}

/// What a journaled write counts for.
pub open spec fn line_bytes(line: JournalView) -> nat {
    16 + match line.record {
        Some(record) => migration_record_bytes(record),
        None => 0nat,
    }
}

/// The page of the journal behind a watermark, from line `i` on, given what is on it already.
pub open spec fn journal_page(
    journal: Seq<JournalView>,
    receipts: Map<Seq<char>, ReceiptView>,
    after: u64,
    limit: nat,
    now: u64,
    i: nat,
    bytes: nat,
    page: Seq<JournalView>,
) -> Seq<JournalView>
    decreases journal.len() - i,
{
    if i >= journal.len() {
        page
    } else {
        let line = journal[i as int];
        if line.watermark <= after {
            journal_page(journal, receipts, after, limit, now, i + 1, bytes, page)
        } else if page.len() > 0 && bytes + line_bytes(line) > limit {
            page
        } else {
            journal_page(
                journal,
                receipts,
                after,
                limit,
                now,
                i + 1,
                bytes + line_bytes(line),
                page.push(outgoing_line(receipts, line, now)),
            )
        }
    }
}

/// What a snapshot of a range is not read for, if anything.
pub open spec fn cursor_fault(cursor: u64, count: nat, too_large: Seq<char>, beyond: Seq<char>) -> Option<
    StatusView,
> {
    if cursor > usize::MAX {
        Some(refusal(Code::InvalidArgument, too_large))
    } else if cursor > count {
        Some(refusal(Code::OutOfRange, beyond))
    } else {
        None
    }
}

impl NodeView {
    /// Why a page of records is not read, if it is not.
    pub open spec fn snapshot_read_fault(self, key: (Seq<char>, Seq<char>), cursor: u64) -> Option<
        StatusView,
    > {
        if !self.sources.contains_key(key) {
            Some(no_source())
        } else {
            match self.sources[key].snapshot_keys {
                None => Some(
                    refusal(Code::Unavailable, "source snapshot is still being prepared"@),
                ),
                Some(keys) => cursor_fault(
                    cursor,
                    keys.len(),
                    "snapshot cursor is too large"@,
                    "snapshot cursor exceeds record count"@,
                ),
            }
        }
    }

    /// Why a page of receipts is not read, if it is not.
    pub open spec fn receipt_read_fault(self, key: (Seq<char>, Seq<char>), cursor: u64) -> Option<
        StatusView,
    > {
        if !self.sources.contains_key(key) {
            Some(no_source())
        } else if self.sources[key].snapshot_keys is None {
            Some(refusal(Code::Unavailable, "source snapshot is still being prepared"@))
        } else {
            cursor_fault(
                cursor,
                self.sources[key].snapshot_dedup_ids.len(),
                "dedup cursor is too large"@,
                "dedup cursor exceeds record count"@,
            )
        }
    }
}

fn still_preparing() -> (r: Status)
    ensures
        r@ == refusal(Code::Unavailable, "source snapshot is still being prepared"@),
{
    Status::new(Code::Unavailable, "source snapshot is still being prepared")
}

impl DataNode {
    /// Reads a page of the records of a range, values as they are now.
    pub fn read_snapshot_page(&self, control: &RangeControl, cursor: u64, max_bytes: u64) -> (r: Result<
        SnapshotPage,
        Status,
    >)
        ensures
            refused(r) == self@.snapshot_read_fault(control@, cursor),
            r matches Ok(page) ==> {
                let keys = self@.sources[control@].snapshot_keys->0;
                let (records, next) = snapshot_page(
                    keys,
                    self@.records,
                    page_bytes(max_bytes) as nat,
                    cursor as nat,
                    0,
                    Seq::empty(),
                );
                &&& views(page.records@) == records
                &&& page.next_cursor == next
                &&& page.done == (next == keys.len())
            },
    {
        let source = match self.sources.get(&control.key()) {
            Some(source) => source,
            None => {
                return Err(missing_source());
            },
        };
        let keys = match &source.snapshot_keys {
            Some(keys) => keys,
            None => {
                return Err(still_preparing());
            },
        };
        if cursor > usize::MAX as u64 {
            return Err(Status::new(Code::InvalidArgument, "snapshot cursor is too large"));
        }
        let start = cursor as usize;
        if start > keys.len() {
            return Err(Status::new(Code::OutOfRange, "snapshot cursor exceeds record count"));
        }
        let ghost k = views(keys@);
        let limit = page_limit(max_bytes);
        let ghost whole = snapshot_page(
            k,
            self@.records,
            limit as nat,
            start as nat,
            0,
            Seq::empty(),
        );
        let mut records: Vec<MigrationRecord> = Vec::new();
        let mut bytes: u128 = 0;
        let mut next: usize = start;
        let mut full = false;
        proof {
            assert(views(records@) =~= Seq::empty());
        }
        while next < keys.len() && !full
            invariant
                k == views(keys@),
                next <= keys@.len(),
                !full ==> whole == snapshot_page(
                    k,
                    self@.records,
                    limit as nat,
                    next as nat,
                    bytes as nat,
                    views(records@),
                ),
                full ==> whole == (views(records@), next as nat),
                bytes <= 0x10_0000_0000_0000_0000,
                records@.len() == 0 ==> bytes == 0,
                limit <= usize::MAX,
            decreases keys.len() - next, if full {
                0int
            } else {
                1int
            },
        {
            proof {
                assert(k[next as int] == keys@[next as int]@);
            }
            match self.records.get(&keys[next]) {
                None => {
                    next = next + 1;
                },
                Some(record) => {
                    let outgoing = MigrationRecord {
                        key: copy_bytes(keys[next].as_slice()),
                        value: copy_bytes(record.value.as_slice()),
                        version: Some(record.version.clone()),
                        deleted: record.deleted,
                        mutation_id: String::new(),
                        remaining_window_millis: 0,
                    };
                    proof {
                        assert(outgoing@ =~= crate::node_pages::outgoing(
                            k[next as int],
                            self@.records[k[next as int]],
                        ));
                    }
                    let size = migration_record_size(&outgoing);
                    if records.len() > 0 && bytes + size > limit as u128 {
                        full = true;
                    } else {
                        bytes = bytes + size;
                        proof {
                            lemma_views_push(records@, outgoing);
                        }
                        records.push(outgoing);
                        next = next + 1;
                    }
                },
            }
        }
        Ok(SnapshotPage { records: records, next_cursor: next as u64, done: next == keys.len() })
    }

    /// Reads a page of the receipts of a range.
    pub fn read_dedup_snapshot_page(
        &self,
        control: &RangeControl,
        cursor: u64,
        max_bytes: u64,
        now: u64,
    ) -> (r: Result<DedupSnapshotPage, Status>)
        ensures
            refused(r) == self@.receipt_read_fault(control@, cursor),
            r matches Ok(page) ==> {
                let ids = self@.sources[control@].snapshot_dedup_ids;
                let (records, next) = receipt_page(
                    ids,
                    self@.receipts,
                    page_bytes(max_bytes) as nat,
                    now,
                    cursor as nat,
                    0,
                    Seq::empty(),
                );
                &&& views(page.records@) == records
                &&& page.next_cursor == next
                &&& page.done == (next == ids.len())
            },
    {
        let source = match self.sources.get(&control.key()) {
            Some(source) => source,
            None => {
                return Err(missing_source());
            },
        };
        if source.snapshot_keys.is_none() {
            return Err(still_preparing());
        }
        let ids = &source.snapshot_dedup_ids;
        if cursor > usize::MAX as u64 {
            return Err(Status::new(Code::InvalidArgument, "dedup cursor is too large"));
        }
        let start = cursor as usize;
        if start > ids.len() {
            return Err(Status::new(Code::OutOfRange, "dedup cursor exceeds record count"));
        }
        let ghost k = views(ids@);
        let limit = page_limit(max_bytes);
        let ghost whole = receipt_page(
            k,
            self@.receipts,
            limit as nat,
            now,
            start as nat,
            0,
            Seq::empty(),
        );
        let mut records: Vec<DeduplicationRecord> = Vec::new();
        let mut bytes: u128 = 0;
        let mut next: usize = start;
        let mut full = false;
        proof {
            assert(views(records@) =~= Seq::empty());
        }
        while next < ids.len() && !full
            invariant
                k == views(ids@),
                next <= ids@.len(),
                !full ==> whole == receipt_page(
                    k,
                    self@.receipts,
                    limit as nat,
                    now,
                    next as nat,
                    bytes as nat,
                    views(records@),
                ),
                full ==> whole == (views(records@), next as nat),
                bytes <= 0x10_0000_0000_0000_0000,
                records@.len() == 0 ==> bytes == 0,
                limit <= usize::MAX,
            decreases ids.len() - next, if full {
                0int
            } else {
                1int
            },
        {
            proof {
                assert(k[next as int] == ids@[next as int]@);
            }
            let live = match self.receipts.entries.get(&ids[next]) {
                Some(receipt) => receipt.expires_at > now,
                None => false,
            };
            if !live {
                next = next + 1;
            } else if let Some(receipt) = self.receipts.entries.get(&ids[next]) {
                let outgoing = DeduplicationRecord {
                    mutation_id: ids[next].clone(),
                    key: copy_bytes(receipt.key.as_slice()),
                    fingerprint: copy_bytes(receipt.fingerprint.as_slice()),
                    version: Some(receipt.version.clone()),
                    deleted: receipt.deleted,
                    remaining_window_millis: remaining_window_millis(receipt.expires_at, now),
                };
                proof {
                    assert(outgoing@ =~= outgoing_receipt(
                        k[next as int],
                        self@.receipts[k[next as int]],
                        now,
                    ));
                }
                let size = dedup_record_size(&outgoing);
                if records.len() > 0 && bytes + size > limit as u128 {
                    full = true;
                } else {
                    bytes = bytes + size;
                    proof {
                        lemma_views_push(records@, outgoing);
                    }
                    records.push(outgoing);
                    next = next + 1;
                }
            }
        }
        Ok(
            DedupSnapshotPage {
                records: records,
                next_cursor: next as u64,
                done: next == ids.len(),
            },
        )
    }

    fn window_of(&self, record: &MigrationRecord, now: u64) -> (r: u64)
        ensures
            r == line_window(self@.receipts, record@, now),
    {
        match self.receipts.entries.get(&record.mutation_id) {
            None => 0,
            Some(receipt) => {
                let print = mutation_fingerprint(
                    record.key.as_slice(),
                    record.value.as_slice(),
                    record.deleted,
                );
                let same = match &record.version {
                    Some(version) => version.same(&receipt.version),
                    None => false,
                };
                if same && same_bytes(receipt.fingerprint.as_slice(), print.as_slice()) {
                    remaining_window_millis(receipt.expires_at, now)
                } else {
                    0
                }
            },
        }
    }

    fn outgoing_copy(&self, line: &JournalRecord, now: u64) -> (r: JournalRecord)
        ensures
            r@ == outgoing_line(self@.receipts, line@, now),
    {
        let mut copied = line.duplicate();
        let left = match &line.record {
            Some(record) => self.window_of(record, now),
            None => 0,
        };
        if let Some(record) = &mut copied.record {
            record.remaining_window_millis = left;
        }
        copied
    }

    /// Reads a page of the journal of a range, behind a watermark.
    pub fn read_changelog_page(
        &self,
        control: &RangeControl,
        after_watermark: u64,
        max_bytes: u64,
        now: u64,
    ) -> (r: Result<ChangelogPage, Status>)
        ensures
            r is Ok == self@.sources.contains_key(control@),
            r matches Err(e) ==> e@ == no_source(),
            r matches Ok(page) ==> {
                let source = self@.sources[control@];
                &&& views(page.records@) == journal_page(
                    source.journal,
                    self@.receipts,
                    after_watermark,
                    page_bytes(max_bytes) as nat,
                    now,
                    0,
                    0,
                    Seq::empty(),
                )
                &&& page.current_watermark == source.watermark
            },
    {
        let source = match self.sources.get(&control.key()) {
            Some(source) => source,
            None => {
                return Err(missing_source());
            },
        };
        let journal = &source.journal;
        let ghost j = views(journal@);
        let limit = page_limit(max_bytes);
        let ghost whole = journal_page(
            j,
            self@.receipts,
            after_watermark,
            limit as nat,
            now,
            0,
            0,
            Seq::empty(),
        );
        let mut records: Vec<JournalRecord> = Vec::new();
        let mut bytes: u128 = 0;
        let mut next: usize = 0;
        let mut full = false;
        proof {
            assert(views(records@) =~= Seq::empty());
        }
        while next < journal.len() && !full
            invariant
                j == views(journal@),
                next <= journal@.len(),
                !full ==> whole == journal_page(
                    j,
                    self@.receipts,
                    after_watermark,
                    limit as nat,
                    now,
                    next as nat,
                    bytes as nat,
                    views(records@),
                ),
                full ==> whole == views(records@),
                bytes <= 0x10_0000_0000_0000_0000,
                records@.len() == 0 ==> bytes == 0,
                limit <= usize::MAX,
            decreases journal.len() - next, if full {
                0int
            } else {
                1int
            },
        {
            let line = &journal[next];
            proof {
                assert(j[next as int] == line@);
            }
            let size = 16 + match &line.record {
                Some(record) => migration_record_size(record),
                None => 0,
            };
            if line.watermark <= after_watermark {
                next = next + 1;
            } else if records.len() > 0 && bytes + size > limit as u128 {
                full = true;
            } else {
                bytes = bytes + size;
                let copied = self.outgoing_copy(line, now);
                proof {
                    lemma_views_push(records@, copied);
                }
                records.push(copied);
                next = next + 1;
            }
        }
        Ok(ChangelogPage { records: records, current_watermark: source.watermark })
    }
}

/// What a list of records, receipts or journaled writes counts for together.
pub open spec fn weight<T>(page: Seq<T>, size: spec_fn(T) -> nat) -> nat
    decreases page.len(),
{
    if page.len() == 0 {
        0
    } else {
        weight(page.drop_last(), size) + size(page.last())
    }
}

proof fn lemma_weight_push<T>(page: Seq<T>, size: spec_fn(T) -> nat, x: T)
    ensures
        weight(page.push(x), size) == weight(page, size) + size(x),
{
    assert(page.push(x).drop_last() =~= page);
}

/// A page of records stays within its limit unless its only record is larger.
pub proof fn law_record_pages_fit(
    keys: Seq<Seq<u8>>,
    records: Map<Seq<u8>, RecordView>,
    limit: nat,
    i: nat,
    page: Seq<MigrationRecordView>,
)
    requires
        page.len() > 1 ==> weight(page, |r: MigrationRecordView| migration_record_bytes(r))
            <= limit,
    ensures
        ({
            let size = |r: MigrationRecordView| migration_record_bytes(r);
            let (whole, next) = snapshot_page(keys, records, limit, i, weight(page, size), page);
            whole.len() > 1 ==> weight(whole, size) <= limit
        }),
    decreases keys.len() - i,
{
    let size = |r: MigrationRecordView| migration_record_bytes(r);
    if i < keys.len() {
        if !records.contains_key(keys[i as int]) {
            law_record_pages_fit(keys, records, limit, i + 1, page);
        } else {
            let record = outgoing(keys[i as int], records[keys[i as int]]);
            lemma_weight_push(page, size, record);
            if page.len() == 0 || weight(page, size) + size(record) <= limit {
                law_record_pages_fit(keys, records, limit, i + 1, page.push(record));
            }
        }
    }
}

/// A page of receipts stays within its limit unless its only receipt is larger.
pub proof fn law_receipt_pages_fit(
    ids: Seq<Seq<char>>,
    receipts: Map<Seq<char>, ReceiptView>,
    limit: nat,
    now: u64,
    i: nat,
    page: Seq<DedupView>,
)
    requires
        page.len() > 1 ==> weight(page, |r: DedupView| dedup_record_bytes(r)) <= limit,
    ensures
        ({
            let size = |r: DedupView| dedup_record_bytes(r);
            let (whole, next) = receipt_page(
                ids,
                receipts,
                limit,
                now,
                i,
                weight(page, size),
                page,
            );
            whole.len() > 1 ==> weight(whole, size) <= limit
        }),
    decreases ids.len() - i,
{
    let size = |r: DedupView| dedup_record_bytes(r);
    if i < ids.len() {
        if !receipts.contains_key(ids[i as int]) || receipts[ids[i as int]].expires_at <= now {
            law_receipt_pages_fit(ids, receipts, limit, now, i + 1, page);
        } else {
            let record = outgoing_receipt(ids[i as int], receipts[ids[i as int]], now);
            lemma_weight_push(page, size, record);
            if page.len() == 0 || weight(page, size) + size(record) <= limit {
                law_receipt_pages_fit(ids, receipts, limit, now, i + 1, page.push(record));
            }
        }
    }
}

/// A page of the journal stays within its limit unless its only write is larger.
pub proof fn law_journal_pages_fit(
    journal: Seq<JournalView>,
    receipts: Map<Seq<char>, ReceiptView>,
    after: u64,
    limit: nat,
    now: u64,
    i: nat,
    page: Seq<JournalView>,
)
    requires
        page.len() > 1 ==> weight(page, |l: JournalView| line_bytes(l)) <= limit,
    ensures
        ({
            let size = |l: JournalView| line_bytes(l);
            let whole = journal_page(
                journal,
                receipts,
                after,
                limit,
                now,
                i,
                weight(page, size),
                page,
            );
            whole.len() > 1 ==> weight(whole, size) <= limit
        }),
    decreases journal.len() - i,
{
    let size = |l: JournalView| line_bytes(l);
    if i < journal.len() {
        let line = journal[i as int];
        if line.watermark <= after {
            law_journal_pages_fit(journal, receipts, after, limit, now, i + 1, page);
        } else {
            let out = outgoing_line(receipts, line, now);
            assert(line_bytes(out) == line_bytes(line));
            lemma_weight_push(page, size, out);
            if page.len() == 0 || weight(page, size) + line_bytes(line) <= limit {
                law_journal_pages_fit(journal, receipts, after, limit, now, i + 1, page.push(out));
            }
        }
    }
}

} // verus!
