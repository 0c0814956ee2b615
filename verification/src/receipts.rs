//! Receipts: what a node remembers of recent writes so that a retry gets the first answer.
use crate::bytes::{flag_byte, framed, put_flag, put_framed, put_text};
use crate::errors::{refusal, refused, Code, Status, StatusView};
use crate::hashing::{blake3_digest, blake3_of};
use crate::limits::MAX_MUTATION_ID_BYTES;
use crate::order::same_bytes;
use crate::ordmap::{
    ascending, entry_index, kept, lemma_entry, lemma_listing, listing, listing_of,
    lemma_total_insert, lemma_total_remove, lemma_total_update, shown, total, SortedMap,
};
use crate::records::{copy_bytes, same_version, RecordVersion, VersionView};
use crate::text::{byte_count, text_len, texts};
use crate::views::{opt, views, Duplicate};
use vstd::prelude::*;
use vstd::utf8::encode_utf8;

verus! {

/// How long a write is remembered, in nanoseconds.
pub const IDEMPOTENCY_WINDOW_NANOS: u64 = 60_000_000_000;

/// How long a write is remembered, in milliseconds.
pub const IDEMPOTENCY_WINDOW_MILLIS: u64 = 60_000;

/// Bytes that a receipt takes beside its texts: its entry in the table and in the order of
/// expiry on a 64-bit target, two shared headers, and the table's own overhead.
pub const RECEIPT_OVERHEAD_BYTES: usize = 288;

/// Bytes that a staged receipt takes beside its texts: its fingerprint, its entry on a
/// 64-bit target, and the table's own overhead.
pub const STAGED_OVERHEAD_BYTES: usize = 272;

/// Bytes of an acknowledgement that is waited for, beside the name of its node.
pub const REQUIRED_ACK_OVERHEAD_BYTES: usize = 144;

/// What of a write identifies it beside its name.
pub open spec fn mutation_bytes(key: Seq<u8>, value: Seq<u8>, deleted: bool) -> Seq<u8> {
    encode_utf8("hashring-rs:mutation:v1\0"@) + framed(key) + seq![flag_byte(deleted)] + framed(
        value,
    )
}

/// What identifies a write beside its name.
pub open spec fn mutation_print(key: Seq<u8>, value: Seq<u8>, deleted: bool) -> Seq<u8> {
    blake3_digest(mutation_bytes(key, value, deleted))
}

/// What identifies a write beside its name.
pub fn mutation_fingerprint(key: &[u8], value: &[u8], deleted: bool) -> (r: Vec<u8>)
    ensures
        r@ == mutation_print(key@, value@, deleted),
        r@.len() == 32,
{
    let mut bytes: Vec<u8> = Vec::new();
    put_text(&mut bytes, "hashring-rs:mutation:v1\0");
    put_framed(&mut bytes, key);
    put_flag(&mut bytes, deleted);
    put_framed(&mut bytes, value);
    proof {
        assert(bytes@ =~= mutation_bytes(key@, value@, deleted));
    }
    blake3_of(bytes.as_slice())
}

/// What a receipt costs, beside the acknowledgements that it waits for.
pub open spec fn receipt_cost(id: Seq<char>, key_len: nat, owner_len: nat) -> nat {
    byte_count(id) + key_len + owner_len + RECEIPT_OVERHEAD_BYTES as nat
}

/// What a receipt costs, beside the acknowledgements that it waits for.
pub fn dedup_retained_bytes(mutation_id: &str, key_len: usize, owner_len: usize) -> (r: usize)
    requires
        receipt_cost(mutation_id@, key_len as nat, owner_len as nat) <= usize::MAX,
    ensures
        r == receipt_cost(mutation_id@, key_len as nat, owner_len as nat),
{
    text_len(mutation_id) + key_len + owner_len + RECEIPT_OVERHEAD_BYTES
}

/// What a staged receipt costs.
pub open spec fn staged_cost(id: Seq<char>, key_len: nat, owner_len: nat) -> nat {
    2 * byte_count(id) + key_len + owner_len + STAGED_OVERHEAD_BYTES as nat
}

/// What a staged receipt costs.
pub fn staged_dedup_retained_bytes(mutation_id: &str, key_len: usize, owner_len: usize) -> (r: usize)
    requires
        staged_cost(mutation_id@, key_len as nat, owner_len as nat) <= usize::MAX,
    ensures
        r == staged_cost(mutation_id@, key_len as nat, owner_len as nat),
{
    text_len(mutation_id) * 2 + key_len + owner_len + STAGED_OVERHEAD_BYTES
}

/// What waiting for one acknowledgement costs.
pub open spec fn ack_cost(node_id: Seq<char>) -> nat {
    byte_count(node_id) + REQUIRED_ACK_OVERHEAD_BYTES as nat
}

/// What waiting for one acknowledgement costs.
pub fn required_ack_entry_bytes(node_id_len: usize) -> (r: usize)
    requires
        node_id_len + REQUIRED_ACK_OVERHEAD_BYTES <= usize::MAX,
    ensures
        r == node_id_len + REQUIRED_ACK_OVERHEAD_BYTES,
{
    node_id_len + REQUIRED_ACK_OVERHEAD_BYTES
}

/// What waiting for the first `n` of these nodes costs.
pub open spec fn acks_cost(nodes: Seq<Seq<char>>) -> nat
    decreases nodes.len(),
{
    if nodes.len() == 0 {
        0
    } else {
        acks_cost(nodes.drop_last()) + ack_cost(nodes.last())
    }
}

pub proof fn lemma_acks_cost_prefix(nodes: Seq<Seq<char>>, n: int)
    requires
        0 <= n <= nodes.len(),
    ensures
        acks_cost(nodes.subrange(0, n)) <= acks_cost(nodes),
    decreases nodes.len(),
{
    if n < nodes.len() {
        lemma_acks_cost_prefix(nodes.drop_last(), n);
        assert(nodes.drop_last().subrange(0, n) =~= nodes.subrange(0, n));
    } else {
        assert(nodes.subrange(0, n) =~= nodes);
    }
}

/// What waiting for these nodes costs.
pub fn required_ack_retained_bytes(followers: &Vec<String>) -> (r: usize)
    requires
        acks_cost(texts(followers@)) <= usize::MAX,
    ensures
        r == acks_cost(texts(followers@)),
{
    let ghost nodes = texts(followers@);
    let mut sum: usize = 0;
    let mut i: usize = 0;
    proof {
        assert(nodes.subrange(0, 0) =~= Seq::empty());
    }
    while i < followers.len()
        invariant
            nodes == texts(followers@),
            i <= followers@.len(),
            sum == acks_cost(nodes.subrange(0, i as int)),
            acks_cost(nodes) <= usize::MAX,
        decreases followers.len() - i,
    {
        proof {
            lemma_acks_cost_prefix(nodes, i + 1);
            assert(nodes.subrange(0, i + 1).drop_last() =~= nodes.subrange(0, i as int));
            assert(nodes[i as int] == followers@[i as int]@);
        }
        sum = sum + required_ack_entry_bytes(text_len(followers[i].as_str()));
        i = i + 1;
    }
    proof {
        assert(nodes.subrange(0, nodes.len() as int) =~= nodes);
    }
    sum
}

/// An acknowledgement that a write waits for.
#[derive(Debug, Eq, PartialEq)]
pub struct RequiredAck {
    pub epoch: u64,
    pub node_id: String,
    pub sequence: u64,
}

#[verifier::ext_equal]
pub struct AckView {
    pub epoch: u64,
    pub node_id: Seq<char>,
    pub sequence: u64,
}

impl View for RequiredAck {
    type V = AckView;

    open spec fn view(&self) -> AckView {
        AckView { epoch: self.epoch, node_id: self.node_id@, sequence: self.sequence }
    }
}

impl Duplicate for RequiredAck {
    fn duplicate(&self) -> (r: Self) {
        RequiredAck { epoch: self.epoch, node_id: self.node_id.clone(), sequence: self.sequence }
    }
}

/// The nodes that acknowledgements are waited for from.
pub open spec fn ack_nodes(acks: Seq<AckView>) -> Seq<Seq<char>> {
    Seq::new(acks.len(), |i: int| acks[i].node_id)
}

/// Entries that take room and expire.
pub trait Expiring: Sized {
    spec fn expiry(&self) -> u64;

    spec fn cost(&self) -> nat;

    fn expires_at(&self) -> (r: u64)
        ensures
            r == self.expiry(),
    ;

    fn retained_bytes(&self) -> (r: usize)
        ensures
            r == self.cost(),
    ;
}

/// The measure of an entry.
pub open spec fn cost_of<V: Expiring>() -> spec_fn(V) -> nat {
    |v: V| v.cost()
}

/// Not expired at `now`.
pub open spec fn live_at<I, V: Expiring>(now: u64) -> spec_fn(I, V) -> bool {
    |k: I, v: V| v.expiry() > now
}

/// Entries by name, with the room that they take.
pub struct ExpiringTable<V: Expiring> {
    pub entries: SortedMap<String, V>,
    pub bytes: usize,
}

impl<V: Expiring> ExpiringTable<V> {
    /// The room is that of the entries.
    pub open spec fn wf(self) -> bool {
        self.bytes == total(self.entries.sequence(), cost_of::<V>())
    }

    pub fn new() -> (r: Self)
        ensures
            r.wf(),
            r.bytes == 0,
            r.entries@ == Map::<Seq<char>, V>::empty(),
    {
        ExpiringTable { entries: SortedMap::new(), bytes: 0 }
    }

    /// Adds an entry under a new name.
    pub fn add(&mut self, id: String, entry: V)
        requires
            old(self).wf(),
            !old(self).entries@.contains_key(id@),
            old(self).bytes + entry.cost() <= usize::MAX,
        ensures
            final(self).wf(),
            final(self).entries@ == old(self).entries@.insert(id@, entry),
            final(self).bytes == old(self).bytes + entry.cost(),
    {
        let bytes = self.bytes + entry.retained_bytes();
        let ghost s = self.entries.sequence();
        let (i, _) = self.entries.locate(&id);
        proof {
            lemma_total_insert(s, i as int, (id@, entry), cost_of::<V>());
        }
        self.entries.insert_at(i, id, entry);
        self.bytes = bytes;
    }

    /// Removes the entries that have expired, and tells whether there were any.
    pub fn purge(&mut self, now: u64) -> (removed: bool)
        requires
            old(self).wf(),
        ensures
            final(self).wf(),
            final(self).entries@ == kept(old(self).entries@, live_at::<Seq<char>, V>(now)),
            final(self).bytes <= old(self).bytes,
            removed == exists|k: Seq<char>| #[trigger]
                old(self).entries@.contains_key(k) && old(self).entries@[k].expiry() <= now,
    {
        let ghost before = self.entries@;
        let mut removed = false;
        let mut i: usize = 0;
        while i < self.entries.len()
            invariant
                self.wf(),
                self.bytes <= old(self).bytes,
                before == old(self).entries@,
                i <= self.entries.sequence().len(),
                forall|k: Seq<char>| #[trigger]
                    self.entries@.contains_key(k) ==> before.contains_key(k) && self.entries@[k]
                        == before[k],
                forall|k: Seq<char>| #[trigger]
                    before.contains_key(k) && !self.entries@.contains_key(k)
                        ==> before[k].expiry() <= now,
                forall|j: int|
                    0 <= j < i ==> (#[trigger] self.entries.sequence()[j]).1.expiry() > now,
                removed ==> exists|k: Seq<char>| #[trigger]
                    before.contains_key(k) && before[k].expiry() <= now,
                !removed ==> self.entries@ == before,
            decreases self.entries.sequence().len() - i,
        {
            self.entries.expose();
            let ghost s = self.entries.sequence();
            proof {
                lemma_entry(s, i as int);
                lemma_total_remove(s, i as int, cost_of::<V>());
            }
            if self.entries.value_at(i).expires_at() > now {
                i = i + 1;
            } else {
                let entry = self.entries.remove_at(i);
                self.bytes = self.bytes - entry.retained_bytes();
                removed = true;
                proof {
                    assert(before.contains_key(s[i as int].0));
                    assert forall|j: int| 0 <= j < i implies (
                    #[trigger] self.entries.sequence()[j]).1.expiry() > now by {
                        assert(self.entries.sequence()[j] == s[j]);
                    }
                }
            }
        }
        self.entries.expose();
        proof {
            let s = self.entries.sequence();
            assert forall|k: Seq<char>| self.entries@.contains_key(k) implies self.entries@[k].expiry()
                > now by {
                let j = entry_index(s, k);
                lemma_entry(s, j);
            }
            assert(self.entries@ =~= kept(before, live_at::<Seq<char>, V>(now)));
        }
        removed
    }

    /// The least expiry, if there is an entry.
    pub fn first_expiry(&self) -> (r: Option<u64>)
        ensures
            r is Some == (exists|k: Seq<char>| #[trigger] self.entries@.contains_key(k)),
            r matches Some(t) ==> {
                &&& exists|k: Seq<char>| #[trigger]
                    self.entries@.contains_key(k) && self.entries@[k].expiry() == t
                &&& forall|k: Seq<char>| #[trigger]
                    self.entries@.contains_key(k) ==> self.entries@[k].expiry() >= t
            },
    {
        self.entries.expose();
        let ghost s = self.entries.sequence();
        let mut least: Option<u64> = None;
        let mut i: usize = 0;
        while i < self.entries.len()
            invariant
                s == self.entries.sequence(),
                crate::ordmap::unique_entries(s),
                i <= s.len(),
                i > 0 ==> least is Some,
                least is None ==> i == 0,
                least matches Some(t) ==> {
                    &&& exists|k: Seq<char>| #[trigger]
                        self.entries@.contains_key(k) && self.entries@[k].expiry() == t
                    &&& forall|j: int| 0 <= j < i ==> (#[trigger] s[j]).1.expiry() >= t
                },
            decreases s.len() - i,
        {
            let expiry = self.entries.value_at(i).expires_at();
            proof {
                lemma_entry(s, i as int);
                let k = s[i as int].0;
                assert(self.entries@.contains_key(k) && self.entries@[k].expiry() == expiry);
            }
            least = match least {
                None => Some(expiry),
                Some(t) => if expiry < t {
                    Some(expiry)
                } else {
                    Some(t)
                },
            };
            i = i + 1;
        }
        proof {
            assert forall|k: Seq<char>| #[trigger] self.entries@.contains_key(k) implies least is Some
                && self.entries@[k].expiry() >= least->0 by {
                let j = entry_index(s, k);
                lemma_entry(s, j);
            }
        }
        least
    }
}

/// What a node remembers of one write.
#[derive(Debug, Eq, PartialEq)]
pub struct Receipt {
    pub key: Vec<u8>,
    pub fingerprint: Vec<u8>,
    pub version: RecordVersion,
    pub deleted: bool,
    pub retained_bytes: usize,
    pub expires_at: u64,
    pub required_acks: Vec<RequiredAck>,
}

#[verifier::ext_equal]
pub struct ReceiptView {
    pub key: Seq<u8>,
    pub fingerprint: Seq<u8>,
    pub version: VersionView,
    pub deleted: bool,
    pub retained_bytes: usize,
    pub expires_at: u64,
    pub required_acks: Seq<AckView>,
}

impl View for Receipt {
    type V = ReceiptView;

    open spec fn view(&self) -> ReceiptView {
        ReceiptView {
            key: self.key@,
            fingerprint: self.fingerprint@,
            version: self.version@,
            deleted: self.deleted,
            retained_bytes: self.retained_bytes,
            expires_at: self.expires_at,
            required_acks: views(self.required_acks@),
        }
    }
}

impl ReceiptView {
    /// The room of a receipt covers the acknowledgements that it waits for.
    pub open spec fn covered(self) -> bool {
        acks_cost(ack_nodes(self.required_acks)) <= self.retained_bytes
    }
}

impl Expiring for Receipt {
    open spec fn expiry(&self) -> u64 {
        self.expires_at
    }

    open spec fn cost(&self) -> nat {
        self.retained_bytes as nat
    }

    fn expires_at(&self) -> (r: u64) {
        self.expires_at
    }

    fn retained_bytes(&self) -> (r: usize) {
        self.retained_bytes
    }
}

/// A receipt on its way from one node to another.
#[derive(Debug, Eq, PartialEq)]
pub struct DeduplicationRecord {
    pub mutation_id: String,
    pub key: Vec<u8>,
    pub fingerprint: Vec<u8>,
    pub version: Option<RecordVersion>,
    pub deleted: bool,
    pub remaining_window_millis: u64,
}

#[verifier::ext_equal]
pub struct DedupView {
    pub mutation_id: Seq<char>,
    pub key: Seq<u8>,
    pub fingerprint: Seq<u8>,
    pub version: Option<VersionView>,
    pub deleted: bool,
    pub remaining_window_millis: u64,
}

impl View for DeduplicationRecord {
    type V = DedupView;

    open spec fn view(&self) -> DedupView {
        DedupView {
            mutation_id: self.mutation_id@,
            key: self.key@,
            fingerprint: self.fingerprint@,
            version: opt(self.version),
            deleted: self.deleted,
            remaining_window_millis: self.remaining_window_millis,
        }
    }
}

impl Duplicate for DeduplicationRecord {
    fn duplicate(&self) -> (r: Self) {
        DeduplicationRecord {
            mutation_id: self.mutation_id.clone(),
            key: copy_bytes(self.key.as_slice()),
            fingerprint: copy_bytes(self.fingerprint.as_slice()),
            version: crate::views::duplicate_opt(&self.version),
            deleted: self.deleted,
            remaining_window_millis: self.remaining_window_millis,
        }
    }
}

/// What a receipt counts for in a page.
pub open spec fn dedup_record_bytes(record: DedupView) -> nat {
    byte_count(record.mutation_id) + record.key.len() + record.fingerprint.len() + (
    match record.version {
        Some(version) => byte_count(version.owner_node_id),
        None => 0,
    }) + 128
}

/// What a receipt counts for in a page.
pub fn dedup_record_size(record: &DeduplicationRecord) -> (r: u128)
    ensures
        r == dedup_record_bytes(record@),
        r <= 0x10_0000_0000_0000_0000,
{
    let owner = match &record.version {
        Some(version) => text_len(version.owner_node_id.as_str()),
        None => 0,
    };
    text_len(record.mutation_id.as_str()) as u128 + record.key.len() as u128
        + record.fingerprint.len() as u128 + owner as u128 + 128
}

/// A receipt that waits for its range to be taken over.
#[derive(Debug, Eq, PartialEq)]
pub struct StagedDedup {
    pub record: DeduplicationRecord,
    pub expires_at: u64,
    pub retained_bytes: usize,
}

#[verifier::ext_equal]
pub struct StagedView {
    pub record: DedupView,
    pub expires_at: u64,
    pub retained_bytes: usize,
}

impl View for StagedDedup {
    type V = StagedView;

    open spec fn view(&self) -> StagedView {
        StagedView {
            record: self.record@,
            expires_at: self.expires_at,
            retained_bytes: self.retained_bytes,
        }
    }
}

impl Expiring for StagedDedup {
    open spec fn expiry(&self) -> u64 {
        self.expires_at
    }

    open spec fn cost(&self) -> nat {
        self.retained_bytes as nat
    }

    fn expires_at(&self) -> (r: u64) {
        self.expires_at
    }

    fn retained_bytes(&self) -> (r: usize) {
        self.retained_bytes
    }
}

/// Staged receipts.
pub type StagedTable = ExpiringTable<StagedDedup>;

/// Whether a receipt on its way is complete.
pub open spec fn dedup_valid(record: DedupView) -> bool {
    &&& record.mutation_id.len() > 0
    &&& byte_count(record.mutation_id) <= MAX_MUTATION_ID_BYTES
    &&& record.fingerprint.len() == 32
    &&& record.version is Some
}

/// Staged receipts stand under their own names and are complete.
pub open spec fn staged_sound(staged: Map<Seq<char>, StagedView>) -> bool {
    forall|id: Seq<char>| #[trigger]
        staged.contains_key(id) ==> staged[id].record.mutation_id == id && dedup_valid(
            staged[id].record,
        )
}

/// What staged receipts take together.
pub open spec fn staged_bytes(staged: Map<Seq<char>, StagedView>) -> nat {
    total(listing_of::<String, StagedView>(staged), |s: StagedView| s.retained_bytes as nat)
}

proof fn lemma_staged_sequence(s: Seq<(Seq<char>, StagedDedup)>, l: Seq<(Seq<char>, StagedView)>)
    requires
        s.len() == l.len(),
        forall|i: int| 0 <= i < s.len() ==> #[trigger] l[i] == (s[i].0, s[i].1@),
    ensures
        total(s, cost_of::<StagedDedup>()) == total(
            l,
            |s: StagedView| s.retained_bytes as nat,
        ),
    decreases s.len(),
{
    if s.len() > 0 {
        assert(l[l.len() - 1] == (s.last().0, s.last().1@));
        lemma_staged_sequence(s.drop_last(), l.drop_last());
    }
}

/// The room that a table counts is what its staged receipts take.
pub proof fn lemma_staged_bytes(table: StagedTable)
    requires
        table.wf(),
        ascending::<String, StagedDedup>(table.entries.sequence()),
    ensures
        table.bytes == staged_bytes(shown(table.entries)),
{
    lemma_listing(table.entries);
    lemma_staged_sequence(table.entries.sequence(), listing(table.entries));
}

/// Whether two receipts are of one write.
pub open spec fn same_write(a: DedupView, b: DedupView) -> bool {
    a.key == b.key && a.fingerprint == b.fingerprint && a.version == b.version && a.deleted
        == b.deleted
}

/// When a receipt that arrives at `now` expires.
pub open spec fn staged_expiry(record: DedupView, now: u64) -> int {
    now + 1_000_000 * if record.remaining_window_millis < IDEMPOTENCY_WINDOW_MILLIS {
        record.remaining_window_millis as int
    } else {
        IDEMPOTENCY_WINDOW_MILLIS as int
    }
}

/// What a receipt is refused for, if anything.
pub open spec fn staging_fault(
    staged: Map<Seq<char>, StagedView>,
    record: DedupView,
    limit: nat,
) -> Option<StatusView> {
    if record.remaining_window_millis == 0 {
        None
    } else if !dedup_valid(record) {
        Some(refusal(Code::InvalidArgument, "invalid deduplication record"@))
    } else if staged.contains_key(record.mutation_id) {
        if same_write(staged[record.mutation_id].record, record) {
            None
        } else {
            Some(
                refusal(
                    Code::FailedPrecondition,
                    "conflicting mutation ID in destination migration"@,
                ),
            )
        }
    } else if staged_bytes(staged) + record_cost(record) > limit {
        Some(refusal(Code::ResourceExhausted, "staged mutation retry window is full"@))
    } else {
        None
    }
}

/// What staging a receipt costs.
pub open spec fn record_cost(record: DedupView) -> nat {
    staged_cost(
        record.mutation_id,
        record.key.len(),
        byte_count(record.version->0.owner_node_id),
    )
}

/// The staged receipts after one that was accepted.
pub open spec fn with_staged(
    staged: Map<Seq<char>, StagedView>,
    record: DedupView,
    now: u64,
) -> Map<Seq<char>, StagedView> {
    let expiry = staged_expiry(record, now) as u64;
    if record.remaining_window_millis == 0 {
        staged
    } else if staged.contains_key(record.mutation_id) {
        let s = staged[record.mutation_id];
        staged.insert(
            record.mutation_id,
            StagedView {
                expires_at: if s.expires_at < expiry {
                    expiry
                } else {
                    s.expires_at
                },
                ..s
            },
        )
    } else {
        staged.insert(
            record.mutation_id,
            StagedView {
                record: record,
                expires_at: expiry,
                retained_bytes: record_cost(record) as usize,
            },
        )
    }
}

/// Stages a receipt: an expired one is dropped, one of a known write extends it, a new one
/// takes room.
pub fn stage_dedup(
    table: &mut StagedTable,
    record: DeduplicationRecord,
    max_dedup_bytes: usize,
    now: u64,
) -> (r: Result<(), Status>)
    requires
        old(table).wf(),
        staged_sound(shown(old(table).entries)),
        now + IDEMPOTENCY_WINDOW_NANOS <= u64::MAX,
    ensures
        final(table).wf(),
        staged_sound(shown(final(table).entries)),
        refused(r) == staging_fault(
            shown(old(table).entries),
            record@,
            max_dedup_bytes as nat,
        ),
        shown(final(table).entries) == if r is Ok {
            with_staged(shown(old(table).entries), record@, now)
        } else {
            shown(old(table).entries)
        },
        r is Err ==> *final(table) == *old(table),
        final(table).bytes == staged_bytes(shown(final(table).entries)),
        final(table).bytes == old(table).bytes + if r is Ok && record.remaining_window_millis > 0
            && !shown(old(table).entries).contains_key(record@.mutation_id) {
            record_cost(record@)
        } else {
            0
        },
        old(table).bytes <= max_dedup_bytes ==> final(table).bytes <= max_dedup_bytes,
{
    let ghost before = shown(table.entries);
    table.entries.expose();
    proof {
        lemma_staged_bytes(*table);
    }
    if record.remaining_window_millis == 0 {
        return Ok(());
    }
    let id_len = text_len(record.mutation_id.as_str());
    let valid = !record.mutation_id.as_str().is_empty() && id_len <= MAX_MUTATION_ID_BYTES
        && record.fingerprint.len() == 32;
    if !valid || record.version.is_none() {
        return Err(Status::new(Code::InvalidArgument, "invalid deduplication record"));
    }
    let owner_len = match &record.version {
        Some(version) => text_len(version.owner_node_id.as_str()),
        None => 0,
    };
    let window = if record.remaining_window_millis < IDEMPOTENCY_WINDOW_MILLIS {
        record.remaining_window_millis
    } else {
        IDEMPOTENCY_WINDOW_MILLIS
    };
    let expires_at = now + window * 1_000_000;
    let ghost s = table.entries.sequence();
    let (i, found) = table.entries.locate(&record.mutation_id);
    if found {
        let existing = table.entries.value_at(i);
        let same = same_bytes(existing.record.key.as_slice(), record.key.as_slice()) && same_bytes(
            existing.record.fingerprint.as_slice(),
            record.fingerprint.as_slice(),
        ) && same_version(&existing.record.version, &record.version) && existing.record.deleted
            == record.deleted;
        if !same {
            return Err(
                Status::new(
                    Code::FailedPrecondition,
                    "conflicting mutation ID in destination migration",
                ),
            );
        }
        let held = table.entries.value_mut_at(i);
        if held.expires_at < expires_at {
            held.expires_at = expires_at;
        }
        proof {
            lemma_total_update(
                s,
                i as int,
                table.entries.sequence()[i as int],
                cost_of::<StagedDedup>(),
            );
            assert(shown(table.entries) =~= with_staged(before, record@, now));
        }
        table.entries.expose();
        proof {
            lemma_staged_bytes(*table);
        }
        return Ok(());
    }
    let wide = id_len as u128 * 2 + record.key.len() as u128 + owner_len as u128
        + STAGED_OVERHEAD_BYTES as u128;
    if table.bytes as u128 + wide > max_dedup_bytes as u128 {
        return Err(Status::new(Code::ResourceExhausted, "staged mutation retry window is full"));
    }
    let cost = staged_dedup_retained_bytes(
        record.mutation_id.as_str(),
        record.key.len(),
        owner_len,
    );
    let id = record.mutation_id.clone();
    table.add(id, StagedDedup { record: record, expires_at: expires_at, retained_bytes: cost });
    table.entries.expose();
    proof {
        lemma_staged_bytes(*table);
        assert(shown(table.entries) =~= with_staged(before, record@, now));
    }
    Ok(())
}

/// Drops the staged receipts that have expired.
pub fn purge_staged_dedup(table: &mut StagedTable, now: u64)
    requires
        old(table).wf(),
    ensures
        final(table).wf(),
        final(table).entries@ == kept(
            old(table).entries@,
            live_at::<Seq<char>, StagedDedup>(now),
        ),
        final(table).bytes <= old(table).bytes,
{
    let _ = table.purge(now);
}

/// What is left of a receipt's life at `now`, in whole milliseconds rounded up.
pub open spec fn window_left(expires_at: u64, now: u64) -> int {
    if expires_at <= now {
        0
    } else {
        let millis = (expires_at - now + 999_999) / 1_000_000;
        if millis < IDEMPOTENCY_WINDOW_MILLIS {
            millis
        } else {
            IDEMPOTENCY_WINDOW_MILLIS as int
        }
    }
}

/// What is left of a receipt's life at `now`, in whole milliseconds rounded up.
pub fn remaining_window_millis(expires_at: u64, now: u64) -> (r: u64)
    ensures
        r == window_left(expires_at, now),
{
    if expires_at <= now {
        return 0;
    }
    let left = expires_at - now;
    let whole = left / 1_000_000;
    let millis = if left % 1_000_000 == 0 {
        whole
    } else {
        whole + 1
    };
    if millis < IDEMPOTENCY_WINDOW_MILLIS {
        millis
    } else {
        IDEMPOTENCY_WINDOW_MILLIS
    }
}

/// A receipt that is handed on arrives with no more life than it had, up to the
/// millisecond it was rounded by.
pub proof fn law_handed_on_receipts_do_not_outlive(expires_at: u64, now: u64, record: DedupView)
    requires
        record.remaining_window_millis == window_left(expires_at, now),
        expires_at > now,
    ensures
        staged_expiry(record, now) < expires_at + 1_000_000,
        expires_at - now <= IDEMPOTENCY_WINDOW_NANOS ==> staged_expiry(record, now) >= expires_at,
{
}

/// A duration in nanoseconds as far as the counter reaches.
pub fn nanos(duration: u128) -> (r: u64)
    ensures
        r == if duration < u64::MAX {
            duration as int
        } else {
            u64::MAX as int
        },
{
    if duration < u64::MAX as u128 {
        duration as u64
    } else {
        u64::MAX
    }
}

} // verus!
