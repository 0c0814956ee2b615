//! A write on its way through its owner: decided, numbered, applied.
use crate::errors::{
    backpressure, error_at, replication_backpressure_error, temporarily_unavailable, temporary,
    ErrorCode, OperationError,
};
use crate::node::{
    journal_measure, DataNode, NodeView, SourceMigration, SourceView, MAX_PIECE_BYTES,
};
use crate::node_receipts::spent;
use crate::node_streams::{at_the_ends, taken_back, PreparedReplication, PreparedView};
use crate::node_write::{
    covering, journal_bytes, mutation_fault, recall, DecisionView, Mutation, MutationView,
    WriteDecision,
};
use crate::ordmap::{
    entry_index, lemma_entry, lemma_total_one, lemma_total_prefix, lemma_total_update, shown, total,
    MapKey, SortedMap,
};
use crate::receipts::{
    ack_cost, ack_nodes, acks_cost, dedup_retained_bytes, mutation_fingerprint, mutation_print,
    required_ack_retained_bytes, AckView, Receipt, ReceiptView, RequiredAck,
    IDEMPOTENCY_WINDOW_NANOS,
};
use crate::records::{
    apply_internal_record, copy_bytes, with_record, JournalRecord, JournalView, MigrationRecord,
    MigrationRecordView, Record, RecordVersion, RecordView, VersionView,
};
use crate::text::{list_has, text_len, texts};
use crate::views::{duplicate_all, lemma_views_push, views, Duplicate};
use vstd::prelude::*;

verus! {

/// The first `n` of these writes that somebody waits for.
pub open spec fn awaited_acks(
    entries: Seq<PreparedView>,
    ready: Seq<Seq<char>>,
    n: nat,
) -> Seq<AckView>
    decreases n,
{
    if n == 0 {
        Seq::empty()
    } else {
        let e = entries[n - 1];
        let rest = awaited_acks(entries, ready, (n - 1) as nat);
        if ready.contains(e.follower_node_id) {
            rest.push(
                AckView {
                    epoch: e.topology_epoch,
                    node_id: e.follower_node_id,
                    sequence: e.stream_sequence,
                },
            )
        } else {
            rest
        }
    }
}

proof fn lemma_acks_cost_remove(nodes: Seq<Seq<char>>, i: int)
    requires
        0 <= i < nodes.len(),
    ensures
        acks_cost(nodes) == acks_cost(nodes.remove(i)) + ack_cost(nodes[i]),
    decreases nodes.len(),
{
    let r = nodes.remove(i);
    if i == nodes.len() - 1 {
        assert(r =~= nodes.drop_last());
    } else {
        lemma_acks_cost_remove(nodes.drop_last(), i);
        assert(r.drop_last() =~= nodes.drop_last().remove(i));
        assert(r.last() == nodes.last());
    }
}

/// Waiting for some of these nodes costs no more than waiting for all.
proof fn lemma_acks_cost_some(some: Seq<Seq<char>>, all: Seq<Seq<char>>)
    requires
        some.no_duplicates(),
        forall|i: int| 0 <= i < some.len() ==> all.contains(#[trigger] some[i]),
    ensures
        acks_cost(some) <= acks_cost(all),
    decreases some.len(),
{
    if some.len() > 0 {
        let x = some.last();
        assert(all.contains(some[some.len() - 1]));
        let i = choose|i: int| 0 <= i < all.len() && all[i] == x;
        lemma_acks_cost_remove(all, i);
        let less = some.drop_last();
        assert forall|j: int| 0 <= j < less.len() implies all.remove(i).contains(
            #[trigger] less[j],
        ) by {
            assert(all.contains(some[j]));
            let k = choose|k: int| 0 <= k < all.len() && all[k] == some[j];
            assert(some[j] != some[some.len() - 1]);
            if k < i {
                assert(all.remove(i)[k] == less[j]);
            } else {
                assert(all.remove(i)[k - 1] == less[j]);
            }
        }
        lemma_acks_cost_some(less, all.remove(i));
    }
}

proof fn lemma_awaited_acks(entries: Seq<PreparedView>, ready: Seq<Seq<char>>, n: nat)
    requires
        n <= entries.len(),
        forall|i: int, j: int|
            0 <= i < j < entries.len() ==> (#[trigger] entries[i]).follower_node_id != (
            #[trigger] entries[j]).follower_node_id,
    ensures
        ({
            let a = ack_nodes(awaited_acks(entries, ready, n));
            &&& a.no_duplicates()
            &&& forall|i: int| 0 <= i < a.len() ==> ready.contains(#[trigger] a[i])
            &&& forall|i: int|
                0 <= i < a.len() ==> exists|j: int|
                    0 <= j < n && (#[trigger] entries[j]).follower_node_id == #[trigger] a[i]
        }),
    decreases n,
{
    let a = ack_nodes(awaited_acks(entries, ready, n));
    if n > 0 {
        lemma_awaited_acks(entries, ready, (n - 1) as nat);
        let b = ack_nodes(awaited_acks(entries, ready, (n - 1) as nat));
        let e = entries[n - 1];
        if ready.contains(e.follower_node_id) {
            assert(a =~= b.push(e.follower_node_id));
            assert forall|i: int| 0 <= i < b.len() implies b[i] != e.follower_node_id by {
                let j = choose|j: int|
                    0 <= j < n - 1 && (#[trigger] entries[j]).follower_node_id == b[i];
                assert(entries[j].follower_node_id != entries[n - 1].follower_node_id);
            }
            assert forall|i: int| 0 <= i < a.len() implies exists|j: int|
                0 <= j < n && (#[trigger] entries[j]).follower_node_id == #[trigger] a[i] by {
                if i < b.len() {
                    let j = choose|j: int|
                        0 <= j < n - 1 && (#[trigger] entries[j]).follower_node_id == b[i];
                    assert(entries[j].follower_node_id == a[i]);
                } else {
                    assert(entries[n - 1].follower_node_id == a[i]);
                }
            }
        } else {
            assert(a =~= b);
            assert forall|i: int| 0 <= i < a.len() implies exists|j: int|
                0 <= j < n && (#[trigger] entries[j]).follower_node_id == #[trigger] a[i] by {
                let j = choose|j: int|
                    0 <= j < n - 1 && (#[trigger] entries[j]).follower_node_id == b[i];
                assert(entries[j].follower_node_id == a[i]);
            }
        }
    }
}

/// The writes that somebody waits for.
fn required_acks(entries: &Vec<PreparedReplication>, ready: &Vec<String>) -> (r: Vec<RequiredAck>)
    ensures
        views(r@) == awaited_acks(views(entries@), texts(ready@), entries@.len()),
{
    let mut r: Vec<RequiredAck> = Vec::new();
    let ghost e = views(entries@);
    let mut i: usize = 0;
    proof {
        assert(views(r@) =~= awaited_acks(e, texts(ready@), 0));
    }
    while i < entries.len()
        invariant
            i <= entries@.len(),
            e == views(entries@),
            views(r@) == awaited_acks(e, texts(ready@), i as nat),
        decreases entries.len() - i,
    {
        let entry = &entries[i];
        proof {
            assert(e[i as int] == entry@);
        }
        if list_has(ready, entry.follower_node_id.as_str()) {
            let ack = RequiredAck {
                epoch: entry.topology_epoch,
                node_id: entry.follower_node_id.clone(),
                sequence: entry.stream_sequence,
            };
            proof {
                lemma_views_push(r@, ack);
            }
            r.push(ack);
        }
        i = i + 1;
    }
    r
}

/// What was sent and not acknowledged, after the first `n` entries were sent.
pub open spec fn sent(
    unacked: Map<(u64, Seq<char>), Seq<(u64, u64)>>,
    entries: Seq<PreparedView>,
    unix: u64,
    n: nat,
) -> Map<(u64, Seq<char>), Seq<(u64, u64)>>
    decreases n,
{
    if n == 0 {
        unacked
    } else {
        let m = sent(unacked, entries, unix, (n - 1) as nat);
        let k = entries[n - 1].stream();
        let queue = if m.contains_key(k) {
            m[k]
        } else {
            Seq::empty()
        };
        m.insert(k, queue.push((entries[n - 1].stream_sequence, unix)))
    }
}

/// A range that is handed over, after a write to it.
pub open spec fn journaled(source: SourceView, record: MigrationRecordView, bytes: nat) -> SourceView {
    SourceView {
        watermark: (source.watermark + 1) as u64,
        journal_bytes: (source.journal_bytes + bytes) as usize,
        journal: source.journal.push(
            JournalView { watermark: (source.watermark + 1) as u64, record: Some(record) },
        ),
        ..source
    }
}

/// The ranges that are handed over, after a write at `token`.
pub open spec fn all_journaled(
    sources: Map<(Seq<char>, Seq<char>), SourceView>,
    token: u64,
    record: MigrationRecordView,
    bytes: nat,
) -> Map<(Seq<char>, Seq<char>), SourceView> {
    sources.map_values(
        |s: SourceView|
            if s.range.covers(token) {
                journaled(s, record, bytes)
            } else {
                s
            },
    )
}

/// Writes a record down in the journal of every range that holds its token.
fn append_journals(
    sources: &mut SortedMap<(String, String), SourceMigration>,
    token: u64,
    record: &MigrationRecord,
    bytes: usize,
)
    requires
        total(old(sources).sequence(), journal_measure()) + bytes * total(
            old(sources).sequence(),
            covering(token),
        ) <= usize::MAX,
        forall|k: (Seq<char>, Seq<char>)| #[trigger]
            old(sources)@.contains_key(k) ==> old(sources)@[k].watermark < u64::MAX,
    ensures
        shown(*final(sources)) == all_journaled(
            shown(*old(sources)),
            token,
            record@,
            bytes as nat,
        ),
        total(final(sources).sequence(), journal_measure()) == total(
            old(sources).sequence(),
            journal_measure(),
        ) + bytes * total(old(sources).sequence(), covering(token)),
{
    let ghost m0 = sources@;
    let ghost s0 = sources.sequence();
    let ghost f = journal_measure();
    let ghost c = covering(token);
    sources.expose();
    let mut i: usize = 0;
    proof {
        assert(s0.subrange(0, 0) =~= Seq::empty());
        assert(total(s0.subrange(0, 0), c) == 0);
        assert(bytes * 0 == 0) by (nonlinear_arith);
    }
    while i < sources.len()
        invariant
            m0 == crate::ordmap::entry_map(s0),
            crate::ordmap::unique_entries(s0),
            f == journal_measure(),
            c == covering(token),
            sources.sequence().len() == s0.len(),
            i <= s0.len(),
            forall|k: (Seq<char>, Seq<char>)| #[trigger]
                m0.contains_key(k) ==> m0[k].watermark < u64::MAX,
            total(s0, f) + bytes * total(s0, c) <= usize::MAX,
            total(sources.sequence(), f) == total(s0, f) + bytes * total(
                s0.subrange(0, i as int),
                c,
            ),
            forall|j: int|
                0 <= j < s0.len() ==> (#[trigger] sources.sequence()[j]).0 == s0[j].0,
            forall|j: int|
                0 <= j < i ==> (#[trigger] sources.sequence()[j]).1@ == if s0[j].1.range@.covers(
                    token,
                ) {
                    journaled(s0[j].1@, record@, bytes as nat)
                } else {
                    s0[j].1@
                },
            forall|j: int| i <= j < s0.len() ==> (#[trigger] sources.sequence()[j]) == s0[j],
        decreases s0.len() - i,
    {
        let ghost s = sources.sequence();
        proof {
            lemma_entry(s0, i as int);
            lemma_total_prefix(s0, i as int, c);
            lemma_total_prefix(s0, i + 1, c);
            lemma_total_one(s, i as int, f);
            let a = total(s0.subrange(0, i as int), c);
            let b = total(s0.subrange(0, i + 1), c);
            let t = total(s0, c);
            assert(bytes * b <= bytes * t) by (nonlinear_arith)
                requires
                    b <= t,
            ;
            assert(b == a + 1 ==> bytes * b == bytes * a + bytes) by (nonlinear_arith);
            assert(m0.contains_key(s0[i as int].0));
        }
        if sources.value_at(i).range.contains(token) {
            let copy = record.duplicate();
            let source = sources.value_mut_at(i);
            let ghost before = *source;
            source.watermark = source.watermark + 1;
            source.journal_bytes = source.journal_bytes + bytes;
            let line = JournalRecord { watermark: source.watermark, record: Some(copy) };
            proof {
                lemma_views_push(source.journal@, line);
            }
            source.journal.push(line);
            proof {
                assert(source@ =~= journaled(before@, record@, bytes as nat));
            }
        }
        proof {
            if s0[i as int].1.range@.covers(token) {
                lemma_total_update(s, i as int, sources.sequence()[i as int], f);
            }
        }
        i = i + 1;
    }
    sources.expose();
    proof {
        let s = sources.sequence();
        assert(s0.subrange(0, s0.len() as int) =~= s0);
        let a = shown(*sources);
        let b = all_journaled(
            Map::new(|k: (Seq<char>, Seq<char>)| m0.contains_key(k), |k| m0[k]@),
            token,
            record@,
            bytes as nat,
        );
        assert forall|k: (Seq<char>, Seq<char>)| #[trigger] a.contains_key(k) implies b.contains_key(
            k,
        ) && a[k] == b[k] by {
            let j = entry_index(s, k);
            lemma_entry(s, j);
            lemma_entry(s0, j);
        }
        assert forall|k: (Seq<char>, Seq<char>)| #[trigger] b.contains_key(k) implies a.contains_key(
            k,
        ) by {
            let j = entry_index(s0, k);
            lemma_entry(s0, j);
            lemma_entry(s, j);
        }
        assert(a =~= b);
    }
}

/// Notes what was sent at `unix`.
fn note_sent(
    unacked: &mut SortedMap<(u64, String), Vec<(u64, u64)>>,
    entries: &Vec<PreparedReplication>,
    unix: u64,
)
    ensures
        shown(*final(unacked)) == sent(
            shown(*old(unacked)),
            views(entries@),
            unix,
            entries@.len(),
        ),
{
    let ghost u0 = shown(*unacked);
    let ghost e = views(entries@);
    let mut i: usize = 0;
    while i < entries.len()
        invariant
            i <= entries@.len(),
            e == views(entries@),
            shown(*unacked) == sent(u0, e, unix, i as nat),
        decreases entries.len() - i,
    {
        let ghost before = shown(*unacked);
        let stream = (entries[i].topology_epoch, entries[i].follower_node_id.clone());
        proof {
            assert(e[i as int] == entries@[i as int]@);
            assert(stream.id() == e[i as int].stream());
        }
        let line = (entries[i].stream_sequence, unix);
        if unacked.contains(&stream) {
            if let Some(queue) = unacked.get_mut(&stream) {
                queue.push(line);
            }
        } else {
            let mut queue: Vec<(u64, u64)> = Vec::new();
            queue.push(line);
            proof {
                assert(queue@ =~= Seq::<(u64, u64)>::empty().push(line));
            }
            let _ = unacked.insert(stream, queue);
        }
        proof {
            assert(shown(*unacked) =~= sent(u0, e, unix, (i + 1) as nat));
        }
        i = i + 1;
    }
}

impl NodeView {
    /// A receipt of this write would find no room.
    pub open spec fn crowded(self, m: MutationView, ready: Seq<Seq<char>>) -> bool {
        recall(self.receipts, m) is Unknown && spent(self.receipts) + self.write_cost(m, ready)
            > self.limits.max_dedup_bytes
    }

    /// This node serves the key under the topology for which the followers were found.
    pub open spec fn still_serves(self, key: Seq<u8>, ready_epoch: u64, now: u64) -> bool {
        self.owner_fault(key, now) is None && self.epoch() == ready_epoch
    }

    /// What happens to a write whose followers were found under `ready_epoch`.
    pub open spec fn settle(
        self,
        m: MutationView,
        ready: Seq<Seq<char>>,
        ready_epoch: u64,
        journal: nat,
        now: u64,
    ) -> DecisionView {
        if self.owner_fault(m.key, now) is Some {
            DecisionView::Refused(self.owner_fault(m.key, now)->0)
        } else if self.epoch() != ready_epoch {
            DecisionView::Refused(
                temporary(self.epoch(), "topology changed while checking replica readiness"@),
            )
        } else {
            self.purged(now).decide(m, ready, journal, now)
        }
    }

    /// The version of the next write.
    pub open spec fn next_version(self) -> VersionView {
        VersionView {
            topology_epoch: self.epoch(),
            owner_sequence: (self.next_sequence + 1) as u64,
            owner_node_id: self.node_id,
        }
    }

    /// The record that a write leaves.
    pub open spec fn next_record(self, m: MutationView) -> RecordView {
        RecordView { value: m.value, version: self.next_version(), deleted: m.deleted }
    }

    /// The receipt of a write.
    pub open spec fn next_receipt(
        self,
        m: MutationView,
        ready: Seq<Seq<char>>,
        entries: Seq<PreparedView>,
        now: u64,
    ) -> ReceiptView {
        ReceiptView {
            key: m.key,
            fingerprint: mutation_print(m.key, m.value, m.deleted),
            version: self.next_version(),
            deleted: m.deleted,
            retained_bytes: self.write_cost(m, ready) as usize,
            expires_at: (now + IDEMPOTENCY_WINDOW_NANOS) as u64,
            required_acks: awaited_acks(entries, ready, entries.len()),
        }
    }

    /// A write as the journals hold it.
    pub open spec fn journal_line(self, m: MutationView) -> MigrationRecordView {
        MigrationRecordView {
            key: m.key,
            value: m.value,
            version: Some(self.next_version()),
            deleted: m.deleted,
            mutation_id: m.request_id,
            remaining_window_millis: 0,
        }
    }

    /// The node after a write that was numbered as `entries`.
    pub open spec fn written(
        self,
        m: MutationView,
        ready: Seq<Seq<char>>,
        entries: Seq<PreparedView>,
        now: u64,
        unix: u64,
    ) -> NodeView {
        NodeView {
            next_sequence: (self.next_sequence + 1) as u64,
            owner_stream_unacked: sent(self.owner_stream_unacked, entries, unix, entries.len()),
            records: if m.deleted {
                with_record(self.records, m.key, self.next_record(m))
            } else {
                self.records.insert(m.key, self.next_record(m))
            },
            sources: all_journaled(
                self.sources,
                self.token(m.key),
                self.journal_line(m),
                journal_bytes(m),
            ),
            receipts: self.receipts.insert(
                m.request_id,
                self.next_receipt(m, ready, entries, now),
            ),
            ..self
        }
    }
}

impl DataNode {
    /// A write can be applied: it is new, its receipt and its journal lines find room, and
    /// its entries are the ends of their streams.
    pub open spec fn can_commit(
        self,
        m: MutationView,
        ready: Seq<Seq<char>>,
        entries: Seq<PreparedView>,
    ) -> bool {
        &&& self.wf()
        &&& mutation_fault(self.limits, m) is None
        &&& acks_cost(ready) <= MAX_PIECE_BYTES
        &&& self.next_sequence < u64::MAX
        &&& forall|k: (Seq<char>, Seq<char>)| #[trigger]
            self@.sources.contains_key(k) ==> self@.sources[k].watermark < u64::MAX
        &&& at_the_ends(self@.owner_stream_sequences, entries)
        &&& forall|i: int|
            0 <= i < entries.len() ==> (#[trigger] entries[i]).topology_epoch == self@.epoch()
        &&& !self@.receipts.contains_key(m.request_id)
        &&& self.receipts.bytes + self@.write_cost(m, ready) <= usize::MAX
        &&& self.journal_after(m) <= usize::MAX
    }

    /// Decides on a write whose followers were found under `ready_epoch`, and numbers it for
    /// its followers if it goes on.
    #[verifier::rlimit(40)]
    pub fn begin_write(
        &mut self,
        m: &Mutation,
        ready: &Vec<String>,
        ready_epoch: u64,
        now: u64,
    ) -> (r: (WriteDecision, Vec<PreparedReplication>))
        requires
            old(self).wf(),
            old(self)@.room(),
            mutation_fault(old(self).limits, m@) is None,
            acks_cost(texts(ready@)) <= MAX_PIECE_BYTES,
            now + IDEMPOTENCY_WINDOW_NANOS <= u64::MAX,
        ensures
            final(self).wf(),
            final(self).dedup_peak_bytes == old(self).dedup_peak_bytes,
            final(self).receipts.bytes <= old(self).receipts.bytes,
            r.0@ == old(self)@.settle(
                m@,
                texts(ready@),
                ready_epoch,
                old(self).journal_after(m@),
                now,
            ),
            r.0 is Proceed ==> {
                &&& views(r.1@) == old(self)@.purged(now).numbering(m@.key)
                &&& final(self)@ == old(self)@.purged(now).with_numbering(m@.key)
                &&& final(self).can_commit(m@, texts(ready@), views(r.1@))
                &&& final(self).receipts.bytes + final(self)@.write_cost(m@, texts(ready@))
                    <= final(self).limits.max_dedup_bytes
            },
            r.0 !is Proceed ==> r.1@.len() == 0 && final(self)@ == if !old(self)@.still_serves(
                m@.key,
                ready_epoch,
                now,
            ) {
                old(self)@
            } else {
                let p = old(self)@.purged(now);
                if p.crowded(m@, texts(ready@)) {
                    NodeView {
                        owner_dedup_rejections: if p.owner_dedup_rejections < u64::MAX {
                            (p.owner_dedup_rejections + 1) as u64
                        } else {
                            u64::MAX
                        },
                        ..p
                    }
                } else {
                    p
                }
            },
    {
        let ghost start = *self;
        if let Some(error) = self.owner_error(m.key.as_slice(), now) {
            return (WriteDecision::Refused(error), Vec::new());
        }
        let epoch = self.topology.epoch;
        if epoch != ready_epoch {
            let error = temporarily_unavailable(
                epoch,
                "topology changed while checking replica readiness",
            );
            return (WriteDecision::Refused(error), Vec::new());
        }
        self.purge_expired_dedup(now);
        let ghost p = start@.purged(now);
        proof {
            assert(p.topology == start@.topology);
            assert(p.owner_stream_sequences == start@.owner_stream_sequences);
            assert(p.sources == start@.sources);
            assert(p.limits == start@.limits);
            assert(p.node_id == start@.node_id);
            assert(p.next_sequence == start@.next_sequence);
        }
        match self.recall_write(m, None) {
            Some(decision) => {
                return (decision, Vec::new());
            },
            None => {},
        }
        let cost = dedup_retained_bytes(
            m.request_id.as_str(),
            m.key.len(),
            text_len(self.node_id.as_str()),
        ) + required_ack_retained_bytes(ready);
        if self.receipts.bytes > self.limits.max_dedup_bytes || cost > self.limits.max_dedup_bytes
            - self.receipts.bytes {
            let error = self.owner_dedup_full_error(now);
            self.owner_dedup_rejections = self.owner_dedup_rejections.saturating_add(1);
            return (WriteDecision::Refused(error), Vec::new());
        }
        if self.policy_write_fence.is_some() {
            let error = error_at(
                epoch,
                ErrorCode::RangeBusy,
                "writes are fenced for ACK-policy transition",
                true,
            );
            return (WriteDecision::Refused(error), Vec::new());
        }
        let token = self.topology.key_token(m.key.as_slice());
        if self.source_paused_at(token) || self.destination_inactive_at(token) {
            let error = error_at(
                epoch,
                ErrorCode::RangeBusy,
                "range writes are fenced for topology cutover",
                true,
            );
            return (WriteDecision::Refused(error), Vec::new());
        }
        if self.journal_is_full(m, token) {
            let error = error_at(
                epoch,
                ErrorCode::ResourceExhausted,
                "node migration journal budget is full; retry with backoff",
                true,
            );
            return (WriteDecision::Refused(error), Vec::new());
        }
        match self.prepare_replication_entries(m) {
            Err(_) => (
                WriteDecision::Refused(replication_backpressure_error(epoch)),
                Vec::new(),
            ),
            Ok(entries) => {
                proof {
                    p.lemma_numbering(m@.key);
                }
                (WriteDecision::Proceed, entries)
            },
        }
    }

    /// Applies a write that was decided on and numbered, or takes its numbers back where the
    /// replication queues could not take it.
    #[verifier::rlimit(60)]
    pub fn finish_write(
        &mut self,
        m: Mutation,
        entries: &Vec<PreparedReplication>,
        ready: &Vec<String>,
        reserved: bool,
        now: u64,
        unix: u64,
    ) -> (r: Result<(RecordVersion, Vec<RequiredAck>), OperationError>)
        requires
            old(self).can_commit(m@, texts(ready@), views(entries@)),
            now + IDEMPOTENCY_WINDOW_NANOS <= u64::MAX,
        ensures
            final(self).wf(),
            final(self).peak_noted(*old(self)),
            r is Ok == reserved,
            r is Err ==> final(self).receipts == old(self).receipts,
            r matches Err(e) ==> e@ == backpressure(old(self)@.epoch()) && final(self)@ == (
            NodeView {
                owner_stream_sequences: taken_back(
                    old(self)@.owner_stream_sequences,
                    views(entries@),
                    entries@.len(),
                ),
                ..old(self)@
            }),
            r matches Ok((version, acks)) ==> {
                &&& version@ == old(self)@.next_version()
                &&& views(acks@) == awaited_acks(views(entries@), texts(ready@), entries@.len())
                &&& final(self)@ == old(self)@.written(
                    m@,
                    texts(ready@),
                    views(entries@),
                    now,
                    unix,
                )
                &&& final(self).receipts.bytes == old(self).receipts.bytes
                    + old(self)@.write_cost(m@, texts(ready@))
                &&& final(self).journal_bytes_total == old(self).journal_after(m@)
            },
    {
        let ghost start = *self;
        let ghost e = views(entries@);
        if !reserved {
            self.rollback_replication_sequences(entries);
            return Err(replication_backpressure_error(self.topology.epoch));
        }
        let token = self.topology.key_token(m.key.as_slice());
        let acks = required_acks(entries, ready);
        proof {
            assert forall|i: int, j: int| 0 <= i < j < e.len() implies (
            #[trigger] e[i]).follower_node_id != (#[trigger] e[j]).follower_node_id by {
                assert(e[i].stream() != e[j].stream());
            }
            lemma_awaited_acks(e, texts(ready@), e.len());
            lemma_acks_cost_some(ack_nodes(views(acks@)), texts(ready@));
        }
        let cost = dedup_retained_bytes(
            m.request_id.as_str(),
            m.key.len(),
            text_len(self.node_id.as_str()),
        ) + required_ack_retained_bytes(ready);
        self.next_sequence = self.next_sequence + 1;
        let version = RecordVersion {
            topology_epoch: self.topology.epoch,
            owner_sequence: self.next_sequence,
            owner_node_id: self.node_id.clone(),
        };
        note_sent(&mut self.owner_stream_unacked, entries, unix);
        let key = copy_bytes(m.key.as_slice());
        let record = Record {
            value: copy_bytes(m.value.as_slice()),
            version: version.clone(),
            deleted: m.deleted,
        };
        let ghost held = record@;
        if m.deleted {
            apply_internal_record(&mut self.records, key, record);
        } else {
            let _ = self.records.insert(key, record);
            proof {
                assert(shown(self.records) =~= start@.records.insert(m@.key, held));
            }
        }
        self.journal_write(&m, &version, token);
        let receipt = Receipt {
            fingerprint: mutation_fingerprint(m.key.as_slice(), m.value.as_slice(), m.deleted),
            key: m.key,
            version: version.clone(),
            deleted: m.deleted,
            retained_bytes: cost,
            expires_at: now + IDEMPOTENCY_WINDOW_NANOS,
            required_acks: duplicate_all(&acks),
        };
        let ghost noted = receipt@;
        self.receipts.add(m.request_id, receipt);
        if self.dedup_peak_bytes < self.receipts.bytes {
            self.dedup_peak_bytes = self.receipts.bytes;
        }
        proof {
            assert(noted =~= start@.next_receipt(m@, texts(ready@), e, now));
            assert(self@.receipts =~= start@.receipts.insert(m@.request_id, noted));
            assert(noted.covered());
            assert(self@ =~= start@.written(m@, texts(ready@), e, now, unix));
        }
        Ok((version, acks))
    }

    /// Writes a write down in the journals.
    fn journal_write(&mut self, m: &Mutation, version: &RecordVersion, token: u64)
        requires
            old(self).wf(),
            mutation_fault(old(self).limits, m@) is None,
            token == old(self)@.token(m@.key),
            old(self).journal_after(m@) <= usize::MAX,
            forall|k: (Seq<char>, Seq<char>)| #[trigger]
                old(self)@.sources.contains_key(k) ==> old(self)@.sources[k].watermark < u64::MAX,
        ensures
            final(self).wf(),
            final(self)@ == (NodeView {
                sources: all_journaled(
                    old(self)@.sources,
                    token,
                    (MigrationRecordView {
                        key: m@.key,
                        value: m@.value,
                        version: Some(version@),
                        deleted: m@.deleted,
                        mutation_id: m@.request_id,
                        remaining_window_millis: 0,
                    }),
                    journal_bytes(m@),
                ),
                ..old(self)@
            }),
            final(self).journal_bytes_total == old(self).journal_after(m@),
            final(self).receipts == old(self).receipts,
            final(self).dedup_peak_bytes == old(self).dedup_peak_bytes,
    {
        let ghost start = *self;
        let bytes = m.key.len() + m.value.len() + text_len(m.request_id.as_str()) + 128;
        let record = MigrationRecord {
            key: copy_bytes(m.key.as_slice()),
            value: copy_bytes(m.value.as_slice()),
            version: Some(version.clone()),
            deleted: m.deleted,
            mutation_id: m.request_id.clone(),
            remaining_window_millis: 0,
        };
        let count = self.covering_sources(token);
        proof {
            assert forall|k: (Seq<char>, Seq<char>)| #[trigger]
                self.sources@.contains_key(k) implies self.sources@[k].watermark < u64::MAX by {
                assert(self@.sources.contains_key(k));
            }
            assert(bytes * count <= usize::MAX);
        }
        append_journals(&mut self.sources, token, &record, bytes);
        self.journal_bytes_total = self.journal_bytes_total + bytes * count;
        proof {
            assert(self@ =~= NodeView {
                sources: all_journaled(start@.sources, token, record@, bytes as nat),
                ..start@
            });
        }
    }

    /// Tells whether the journals have no room for a write.
    fn journal_is_full(&self, m: &Mutation, token: u64) -> (r: bool)
        requires
            self.wf(),
            mutation_fault(self.limits, m@) is None,
            token == self@.token(m@.key),
        ensures
            r == (self.journal_after(m@) > self.limits.max_journal_bytes),
    {
        let bytes = m.key.len() + m.value.len() + text_len(m.request_id.as_str()) + 128;
        let count = self.covering_sources(token);
        proof {
            assert(bytes * count <= 18446744073709551615 * 18446744073709551615)
                by (nonlinear_arith)
                requires
                    bytes <= 18446744073709551615,
                    count <= 18446744073709551615,
            ;
        }
        let growth = bytes as u128 * count as u128;
        self.journal_bytes_total as u128 + growth > self.limits.max_journal_bytes as u128
    }

    /// The failure of a write whose receipt finds no room.
    pub fn owner_dedup_full_error(&self, now: u64) -> (r: OperationError)
        ensures
            r@ == self@.receipts_full(now),
    {
        let mut error = error_at(
            self.topology.epoch,
            ErrorCode::ResourceExhausted,
            "owner mutation retry window is full; retry with backoff",
            true,
        );
        error.retry_after_millis = self.dedup_retry_after_millis(now);
        error
    }
}

} // verus!
