//! Versioned records of a node, and how they travel between nodes.
use crate::bytes::{
    be64, flag_byte, framed, put_be64, put_bytes, put_flag, put_framed, put_framed_text, put_text,
};
use crate::errors::{refusal, refused, Code, Status, StatusView};
use crate::hashing::{blake3_hex, blake3_hex_of};
use crate::limits::MAX_MIGRATION_PAGE_BYTES;
use crate::order::{lex_position, Position};
use crate::ordmap::{lemma_listing, listing, listing_of, shown, SortedMap};
use crate::text::{byte_count, order_text, same_text, text_len, text_rank};
use crate::views::{opt, views, Duplicate};
use vstd::prelude::*;
use vstd::utf8::encode_utf8;

verus! {

/// When and by whom a record was written.
#[derive(Debug, Eq, PartialEq)]
pub struct RecordVersion {
    pub topology_epoch: u64,
    pub owner_sequence: u64,
    pub owner_node_id: String,
}

#[verifier::ext_equal]
pub struct VersionView {
    pub topology_epoch: u64,
    pub owner_sequence: u64,
    pub owner_node_id: Seq<char>,
}

impl View for RecordVersion {
    type V = VersionView;

    open spec fn view(&self) -> VersionView {
        VersionView {
            topology_epoch: self.topology_epoch,
            owner_sequence: self.owner_sequence,
            owner_node_id: self.owner_node_id@,
        }
    }
}

impl Clone for RecordVersion {
    fn clone(&self) -> (r: Self)
        ensures
            r == *self,
    {
        RecordVersion {
            topology_epoch: self.topology_epoch,
            owner_sequence: self.owner_sequence,
            owner_node_id: self.owner_node_id.clone(),
        }
    }
}

impl Duplicate for RecordVersion {
    fn duplicate(&self) -> (r: Self) {
        self.clone()
    }
}

impl RecordVersion {
    pub fn same(&self, other: &RecordVersion) -> (r: bool)
        ensures
            r == (self@ == other@),
    {
        self.topology_epoch == other.topology_epoch && self.owner_sequence == other.owner_sequence
            && same_text(self.owner_node_id.as_str(), other.owner_node_id.as_str())
    }
}

/// Tells whether two optional versions are equal.
pub fn same_version(a: &Option<RecordVersion>, b: &Option<RecordVersion>) -> (r: bool)
    ensures
        r == (opt(*a) == opt(*b)),
{
    match (a, b) {
        (Some(x), Some(y)) => x.same(y),
        (None, None) => true,
        _ => false,
    }
}

/// Versions are ordered by epoch, then by sequence, then by owner.
pub open spec fn version_position(a: VersionView, b: VersionView) -> Position {
    if a.topology_epoch != b.topology_epoch {
        if a.topology_epoch < b.topology_epoch {
            Position::Before
        } else {
            Position::After
        }
    } else if a.owner_sequence != b.owner_sequence {
        if a.owner_sequence < b.owner_sequence {
            Position::Before
        } else {
            Position::After
        }
    } else {
        lex_position(text_rank(a.owner_node_id), text_rank(b.owner_node_id))
    }
}

/// Compares two versions by epoch, sequence and owner.
pub fn compare_versions(left: &RecordVersion, right: &RecordVersion) -> (r: Position)
    ensures
        r == version_position(left@, right@),
        r is Same <==> left@ == right@,
{
    if left.topology_epoch < right.topology_epoch {
        Position::Before
    } else if left.topology_epoch > right.topology_epoch {
        Position::After
    } else if left.owner_sequence < right.owner_sequence {
        Position::Before
    } else if left.owner_sequence > right.owner_sequence {
        Position::After
    } else {
        order_text(left.owner_node_id.as_str(), right.owner_node_id.as_str())
    }
}

/// A value, or the mark that it was deleted.
#[derive(Debug, Eq, PartialEq)]
pub struct Record {
    pub value: Vec<u8>,
    pub version: RecordVersion,
    pub deleted: bool,
}

#[verifier::ext_equal]
pub struct RecordView {
    pub value: Seq<u8>,
    pub version: VersionView,
    pub deleted: bool,
}

impl View for Record {
    type V = RecordView;

    open spec fn view(&self) -> RecordView {
        RecordView { value: self.value@, version: self.version@, deleted: self.deleted }
    }
}

/// Copies bytes.
pub fn copy_bytes(bytes: &[u8]) -> (r: Vec<u8>)
    ensures
        r@ == bytes@,
{
    let mut r: Vec<u8> = Vec::new();
    put_bytes(&mut r, bytes);
    proof {
        assert(r@ =~= bytes@);
    }
    r
}

impl Duplicate for Record {
    fn duplicate(&self) -> (r: Self) {
        Record {
            value: copy_bytes(self.value.as_slice()),
            version: self.version.clone(),
            deleted: self.deleted,
        }
    }
}

/// The records of a node, by key.
pub type RecordMap = SortedMap<Vec<u8>, Record>;

/// The records after one that may be older than what is there.
pub open spec fn with_record(
    records: Map<Seq<u8>, RecordView>,
    key: Seq<u8>,
    record: RecordView,
) -> Map<Seq<u8>, RecordView> {
    if records.contains_key(key) && version_position(record.version, records[key].version)
        != Position::After {
        records
    } else {
        records.insert(key, record)
    }
}

/// Keeps the newer of a record and what is there.
pub fn apply_internal_record(records: &mut RecordMap, key: Vec<u8>, record: Record)
    ensures
        shown(*final(records)) == with_record(shown(*old(records)), key@, record@),
{
    let ghost before = shown(*records);
    let newer = match records.get(&key) {
        None => true,
        Some(current) => match compare_versions(&record.version, &current.version) {
            Position::After => true,
            _ => false,
        },
    };
    if newer {
        let _ = records.insert(key, record);
        proof {
            assert(shown(*records) =~= before.insert(key@, record@));
        }
    }
}

/// A record on its way from one node to another.
#[derive(Debug, Eq, PartialEq)]
pub struct MigrationRecord {
    pub key: Vec<u8>,
    pub value: Vec<u8>,
    pub version: Option<RecordVersion>,
    pub deleted: bool,
    pub mutation_id: String,
    pub remaining_window_millis: u64,
}

#[verifier::ext_equal]
pub struct MigrationRecordView {
    pub key: Seq<u8>,
    pub value: Seq<u8>,
    pub version: Option<VersionView>,
    pub deleted: bool,
    pub mutation_id: Seq<char>,
    pub remaining_window_millis: u64,
}

impl View for MigrationRecord {
    type V = MigrationRecordView;

    open spec fn view(&self) -> MigrationRecordView {
        MigrationRecordView {
            key: self.key@,
            value: self.value@,
            version: opt(self.version),
            deleted: self.deleted,
            mutation_id: self.mutation_id@,
            remaining_window_millis: self.remaining_window_millis,
        }
    }
}

impl Duplicate for MigrationRecord {
    fn duplicate(&self) -> (r: Self) {
        MigrationRecord {
            key: copy_bytes(self.key.as_slice()),
            value: copy_bytes(self.value.as_slice()),
            version: crate::views::duplicate_opt(&self.version),
            deleted: self.deleted,
            mutation_id: self.mutation_id.clone(),
            remaining_window_millis: self.remaining_window_millis,
        }
    }
}

/// A write that happened while a range was being copied.
#[derive(Debug, Eq, PartialEq)]
pub struct JournalRecord {
    pub watermark: u64,
    pub record: Option<MigrationRecord>,
}

#[verifier::ext_equal]
pub struct JournalView {
    pub watermark: u64,
    pub record: Option<MigrationRecordView>,
}

impl View for JournalRecord {
    type V = JournalView;

    open spec fn view(&self) -> JournalView {
        JournalView { watermark: self.watermark, record: opt(self.record) }
    }
}

impl Duplicate for JournalRecord {
    fn duplicate(&self) -> (r: Self) {
        JournalRecord {
            watermark: self.watermark,
            record: crate::views::duplicate_opt(&self.record),
        }
    }
}

/// What a record of a migration is refused for, if anything.
pub open spec fn migration_record_fault(record: MigrationRecordView) -> Option<StatusView> {
    if record.version is None {
        Some(refusal(Code::InvalidArgument, "migration record omitted version"@))
    } else if record.deleted && record.value.len() > 0 {
        Some(refusal(Code::InvalidArgument, "deleted migration record must omit its value"@))
    } else {
        None
    }
}

/// The record that a record of a migration carries.
pub open spec fn carried(record: MigrationRecordView) -> RecordView {
    RecordView { value: record.value, version: record.version->0, deleted: record.deleted }
}

/// Keeps the newer of a migrated record and what is there.
pub fn apply_record(records: &mut RecordMap, record: MigrationRecord) -> (r: Result<(), Status>)
    ensures
        refused(r) == migration_record_fault(record@),
        shown(*final(records)) == if migration_record_fault(record@) is None {
            with_record(shown(*old(records)), record@.key, carried(record@))
        } else {
            shown(*old(records))
        },
{
    let deleted = record.deleted;
    let version = match record.version {
        Some(version) => version,
        None => {
            return Err(Status::new(Code::InvalidArgument, "migration record omitted version"));
        },
    };
    if deleted && record.value.len() > 0 {
        return Err(
            Status::new(Code::InvalidArgument, "deleted migration record must omit its value"),
        );
    }
    apply_internal_record(
        records,
        record.key,
        Record { value: record.value, version: version, deleted: deleted },
    );
    Ok(())
}

/// How many bytes a page may hold.
pub open spec fn page_bytes(requested: u64) -> int {
    if requested < 1 {
        1
    } else if requested > MAX_MIGRATION_PAGE_BYTES {
        MAX_MIGRATION_PAGE_BYTES as int
    } else {
        requested as int
    }
}

/// How many bytes a page may hold.
pub fn page_limit(requested: u64) -> (r: usize)
    ensures
        r == page_bytes(requested),
{
    if requested < 1 {
        1
    } else if requested > MAX_MIGRATION_PAGE_BYTES as u64 {
        MAX_MIGRATION_PAGE_BYTES
    } else {
        requested as usize
    }
}

/// What a record of a migration counts for in a page or a journal.
pub open spec fn migration_record_bytes(record: MigrationRecordView) -> nat {
    record.key.len() + record.value.len() + byte_count(record.mutation_id) + 128
}

/// What a record of a migration counts for in a page or a journal.
pub fn migration_record_size(record: &MigrationRecord) -> (r: u128)
    ensures
        r == migration_record_bytes(record@),
        r <= 0x8_0000_0000_0000_0000,
{
    record.key.len() as u128 + record.value.len() as u128 + text_len(
        record.mutation_id.as_str(),
    ) as u128 + 128
}

/// What of a record enters the digest of a range.
pub open spec fn record_bytes(key: Seq<u8>, record: RecordView) -> Seq<u8> {
    framed(key) + be64(record.version.topology_epoch) + be64(record.version.owner_sequence)
        + framed(encode_utf8(record.version.owner_node_id)) + framed(record.value) + seq![
        flag_byte(record.deleted),
    ]
}

/// The first `n` entries of a listing as they enter the digest of a range.
pub open spec fn listing_bytes(l: Seq<(Seq<u8>, RecordView)>, n: nat) -> Seq<u8>
    decreases n,
{
    if n == 0 {
        encode_utf8("hashring-rs:records:v2\0"@)
    } else {
        listing_bytes(l, (n - 1) as nat) + record_bytes(l[n - 1].0, l[n - 1].1)
    }
}

/// What of records enters their digest.
pub open spec fn records_input(records: Map<Seq<u8>, RecordView>) -> Seq<u8> {
    let l = listing_of::<Vec<u8>, RecordView>(records);
    listing_bytes(l, l.len())
}

/// The digest of records: it depends on what is there alone, keys in ascending order.
pub open spec fn records_digest(records: Map<Seq<u8>, RecordView>) -> Seq<char> {
    blake3_hex(records_input(records))
}

/// The number and the digest of the records of a range.
#[derive(Debug, Eq, PartialEq)]
pub struct RangeDigest {
    pub record_count: u64,
    pub digest: String,
    pub changelog_watermark: u64,
}

fn put_record(out: &mut Vec<u8>, key: &[u8], record: &Record)
    ensures
        final(out)@ == old(out)@ + record_bytes(key@, record@),
{
    let ghost start = out@;
    put_framed(out, key);
    put_be64(out, record.version.topology_epoch);
    put_be64(out, record.version.owner_sequence);
    put_framed_text(out, record.version.owner_node_id.as_str());
    put_framed(out, record.value.as_slice());
    put_flag(out, record.deleted);
    proof {
        let a = framed(key@);
        let b = be64(record.version.topology_epoch);
        let c = be64(record.version.owner_sequence);
        let d = framed(encode_utf8(record.version@.owner_node_id));
        let e = framed(record.value@);
        let f = flag_byte(record.deleted);
        lemma_chain(start, a, b, c, d, e, f);
    }
}

proof fn lemma_chain(
    s: Seq<u8>,
    a: Seq<u8>,
    b: Seq<u8>,
    c: Seq<u8>,
    d: Seq<u8>,
    e: Seq<u8>,
    f: u8,
)
    ensures
        (s + a + b + c + d + e).push(f) == s + (a + b + c + d + e + seq![f]),
{
    assert((s + a + b + c + d + e).push(f) =~= s + (a + b + c + d + e + seq![f]));
}

/// The digest of all records given.
pub fn range_digest(records: &RecordMap, watermark: u64) -> (r: RangeDigest)
    ensures
        r.record_count == listing_of::<Vec<u8>, RecordView>(shown(*records)).len(),
        r.digest@ == records_digest(shown(*records)),
        r.changelog_watermark == watermark,
{
    records.expose();
    let ghost l = listing(*records);
    proof {
        lemma_listing(*records);
    }
    let mut bytes: Vec<u8> = Vec::new();
    put_text(&mut bytes, "hashring-rs:records:v2\0");
    proof {
        assert(bytes@ =~= listing_bytes(l, 0));
    }
    let count = records.len();
    let mut i: usize = 0;
    while i < count
        invariant
            count == records.sequence().len(),
            i <= count,
            l == listing(*records),
            bytes@ == listing_bytes(l, i as nat),
        decreases count - i,
    {
        let key = records.key_at(i);
        let record = records.value_at(i);
        put_record(&mut bytes, key.as_slice(), record);
        proof {
            assert(l[i as int] == (key@, record@));
        }
        i = i + 1;
    }
    RangeDigest {
        record_count: count as u64,
        digest: blake3_hex_of(bytes.as_slice()),
        changelog_watermark: watermark,
    }
}

/// Source and destination of a range agree on its digest as soon as they hold the same
/// records.
pub proof fn law_equal_records_have_equal_digests(a: RecordMap, b: RecordMap)
    requires
        shown(a) == shown(b),
    ensures
        records_digest(shown(a)) == records_digest(shown(b)),
{
}

/// Keeping the newer record does not depend on the order in which two records of
/// different versions arrive.
pub proof fn law_records_commute(
    records: Map<Seq<u8>, RecordView>,
    key: Seq<u8>,
    a: RecordView,
    b: RecordView,
)
    requires
        a.version != b.version,
    ensures
        with_record(with_record(records, key, a), key, b) == with_record(
            with_record(records, key, b),
            key,
            a,
        ),
{
    lemma_version_order(a.version, b.version, a.version);
    lemma_version_order(b.version, a.version, b.version);
    if records.contains_key(key) {
        let c = records[key];
        lemma_version_order(a.version, b.version, c.version);
        lemma_version_order(b.version, a.version, c.version);
        lemma_version_order(a.version, c.version, b.version);
        lemma_version_order(b.version, c.version, a.version);
        lemma_version_order(c.version, a.version, b.version);
        lemma_version_order(c.version, b.version, a.version);
    }
    assert(with_record(with_record(records, key, a), key, b) =~= with_record(
        with_record(records, key, b),
        key,
        a,
    ));
}

/// A record that is already there, or an older one, changes nothing.
pub proof fn law_older_records_change_nothing(
    records: Map<Seq<u8>, RecordView>,
    key: Seq<u8>,
    record: RecordView,
)
    requires
        records.contains_key(key),
        version_position(record.version, records[key].version) != Position::After,
    ensures
        with_record(records, key, record) == records,
{
}

/// Versions are totally ordered.
pub proof fn lemma_version_order(a: VersionView, b: VersionView, c: VersionView)
    ensures
        version_position(a, b) == Position::Same <==> a == b,
        version_position(a, b) == Position::Before <==> version_position(b, a) == Position::After,
        version_position(a, b) == Position::Before && version_position(b, c) == Position::Before
            ==> version_position(a, c) == Position::Before,
{
    let x = text_rank(a.owner_node_id);
    let y = text_rank(b.owner_node_id);
    let z = text_rank(c.owner_node_id);
    crate::order::lemma_lex_total(x, y);
    crate::order::lemma_lex_total(y, z);
    crate::order::lemma_lex_total(x, z);
    if crate::order::lex_lt(x, y) {
        crate::order::lemma_lex_asymmetric(x, y);
        if crate::order::lex_lt(y, z) {
            crate::order::lemma_lex_transitive(x, y, z);
            crate::order::lemma_lex_asymmetric(x, z);
        }
    }
    if crate::order::lex_lt(y, x) {
        crate::order::lemma_lex_asymmetric(y, x);
    }
    if x == y {
        crate::text::lemma_text_rank_injective(a.owner_node_id, b.owner_node_id);
        if a.topology_epoch == b.topology_epoch && a.owner_sequence == b.owner_sequence {
            assert(a =~= b);
        }
    }
}

} // verus!
