//! Copying a range while it is written: what the copy comes to hold.
use crate::node::{DestinationView, NodeView, SourceView, SpecView};
use crate::node_apply::{journal_run, journal_step, snapshot_run, snapshot_step, with_brought};
use crate::node_commit::journaled;
use crate::node_failover::law_topologies_keep_records;
use crate::node_pages::{journal_page, line_bytes, outgoing, outgoing_line, outgoing_receipt};
use crate::node_ranges::{fresh_source, within};
use crate::node_streams::PreparedView;
use crate::node_takeover::{merged, outside};
use crate::node_write::{journal_bytes, recall, MutationView, Recall};
use crate::order::Position;
use crate::ordmap::kept;
use crate::receipts::ReceiptView;
use crate::records::{
    carried, lemma_version_order, migration_record_fault, records_digest, version_position,
    with_record, JournalView, MigrationRecordView, RecordView,
};
use crate::topology::SnapshotView;
use vstd::prelude::*;

verus! {

/// A journaled write that can be applied.
pub open spec fn line_ok(line: JournalView) -> bool {
    line.record is Some && migration_record_fault(line.record->0) is None
}

/// Records after the first `n` lines of a journal.
pub open spec fn replayed(
    base: Map<Seq<u8>, RecordView>,
    journal: Seq<JournalView>,
    n: nat,
) -> Map<Seq<u8>, RecordView>
    decreases n,
{
    if n == 0 {
        base
    } else {
        let record = journal[n - 1].record->0;
        with_record(replayed(base, journal, (n - 1) as nat), record.key, carried(record))
    }
}

/// The lines of a journal are numbered from one on, and each can be applied within its range.
pub open spec fn sound_journal(t: SnapshotView, s: SourceView) -> bool {
    &&& s.watermark == s.journal.len()
    &&& forall|i: int| #![trigger s.journal[i]]
        0 <= i < s.journal.len() ==> {
            &&& s.journal[i].watermark == i + 1
            &&& line_ok(s.journal[i])
            &&& s.range.covers(t.key_token(s.journal[i].record->0.key))
        }
}

impl NodeView {
    /// What a node holds of a range.
    pub open spec fn holding(self, range: SpecView) -> Map<Seq<u8>, RecordView> {
        kept(self.records, within(self.topology, range))
    }

    /// A range that is handed over holds what it held when it was prepared, changed as its
    /// journal says.
    pub open spec fn tracks(
        self,
        key: (Seq<char>, Seq<char>),
        base: Map<Seq<u8>, RecordView>,
    ) -> bool {
        &&& self.sources.contains_key(key)
        &&& sound_journal(self.topology, self.sources[key])
        &&& self.holding(self.sources[key].range) == replayed(
            base,
            self.sources[key].journal,
            self.sources[key].journal.len(),
        )
    }

    /// The next write is newer than what the node holds under a key.
    pub open spec fn writes_newer(self, key: Seq<u8>) -> bool {
        self.records.contains_key(key) ==> version_position(
            self.next_version(),
            self.records[key].version,
        ) == Position::After
    }
}

/// A range that was prepared just now is tracked from what it holds.
pub proof fn law_prepared_ranges_are_tracked(n: NodeView, range: SpecView)
    ensures
        ({
            let prepared = NodeView {
                sources: n.sources.insert(range.key(), fresh_source(range)),
                ..n
            };
            prepared.tracks(range.key(), n.holding(range))
        }),
{
    let prepared = NodeView { sources: n.sources.insert(range.key(), fresh_source(range)), ..n };
    assert(prepared.sources[range.key()] == fresh_source(range));
    assert(prepared.holding(range) =~= n.holding(range));
}

proof fn lemma_replayed_prefix(
    base: Map<Seq<u8>, RecordView>,
    a: Seq<JournalView>,
    b: Seq<JournalView>,
    n: nat,
)
    requires
        n <= a.len(),
        n <= b.len(),
        forall|i: int| 0 <= i < n ==> #[trigger] a[i] == b[i],
    ensures
        replayed(base, a, n) == replayed(base, b, n),
    decreases n,
{
    if n > 0 {
        lemma_replayed_prefix(base, a, b, (n - 1) as nat);
        assert(a[n - 1] == b[n - 1]);
    }
}

/// Writes keep a range tracked: each changes what the range holds as the journal says. They
/// have to be newer than what they replace, as those of an owner are.
pub proof fn law_writes_are_tracked(
    n: NodeView,
    m: MutationView,
    ready: Seq<Seq<char>>,
    entries: Seq<PreparedView>,
    now: u64,
    unix: u64,
    key: (Seq<char>, Seq<char>),
    base: Map<Seq<u8>, RecordView>,
)
    requires
        n.tracks(key, base),
        n.writes_newer(m.key),
        m.deleted ==> m.value.len() == 0,
        n.sources[key].watermark < u64::MAX,
    ensures
        n.written(m, ready, entries, now, unix).tracks(key, base),
{
    let w = n.written(m, ready, entries, now, unix);
    let s = n.sources[key];
    let token = n.token(m.key);
    let line = n.journal_line(m);
    let range = s.range;
    assert(w.topology == n.topology);
    assert(w.records =~= n.records.insert(m.key, n.next_record(m)));
    assert(w.sources.contains_key(key));
    if range.covers(token) {
        let t = journaled(s, line, journal_bytes(m));
        assert(w.sources[key] == t);
        assert(carried(line) == n.next_record(m));
        assert(t.journal.len() == s.journal.len() + 1);
        lemma_replayed_prefix(base, s.journal, t.journal, s.journal.len());
        assert forall|i: int| #![trigger t.journal[i]] 0 <= i < t.journal.len() implies {
            &&& t.journal[i].watermark == i + 1
            &&& line_ok(t.journal[i])
            &&& t.range.covers(n.topology.key_token(t.journal[i].record->0.key))
        } by {
            if i < s.journal.len() {
                assert(t.journal[i] == s.journal[i]);
            }
        }
        let held = n.holding(range);
        assert(held.contains_key(m.key) == n.records.contains_key(m.key));
        assert(with_record(held, m.key, carried(line)) =~= w.holding(range)) by {
            assert(with_record(held, m.key, carried(line)) =~= held.insert(
                m.key,
                n.next_record(m),
            ));
        }
        assert(t.journal[t.journal.len() - 1].record->0 == line);
    } else {
        assert(w.sources[key] == s);
        assert(w.holding(range) =~= n.holding(range));
    }
}

/// Two lines say the same, but for how long the receipt of the write still lives.
pub open spec fn same_write(a: JournalView, b: JournalView) -> bool {
    &&& a.watermark == b.watermark
    &&& a.record is Some == b.record is Some
    &&& a.record is Some ==> a.record->0.key == b.record->0.key && carried(a.record->0) == carried(
        b.record->0,
    )
}

proof fn lemma_journal_page(
    journal: Seq<JournalView>,
    receipts: Map<Seq<char>, ReceiptView>,
    after: u64,
    limit: nat,
    now: u64,
    i: nat,
    bytes: nat,
    page: Seq<JournalView>,
)
    requires
        forall|k: int| 0 <= k < journal.len() ==> (#[trigger] journal[k]).watermark == k + 1,
        after <= journal.len(),
        i <= journal.len(),
        page.len() == if i <= after {
            0
        } else {
            i - after
        },
        forall|k: int|
            0 <= k < page.len() ==> same_write(#[trigger] page[k], journal[after + k]),
    ensures
        ({
            let whole = journal_page(journal, receipts, after, limit, now, i, bytes, page);
            &&& page.len() <= whole.len() <= journal.len() - after
            &&& forall|k: int|
                0 <= k < whole.len() ==> same_write(#[trigger] whole[k], journal[after + k])
            &&& page.len() == 0 && i < journal.len() && after < journal.len() ==> whole.len() > 0
        }),
    decreases journal.len() - i,
{
    if i < journal.len() {
        let line = journal[i as int];
        if line.watermark <= after {
            lemma_journal_page(journal, receipts, after, limit, now, i + 1, bytes, page);
        } else if page.len() > 0 && bytes + line_bytes(line) > limit {
        } else {
            let next = page.push(outgoing_line(receipts, line, now));
            assert forall|k: int| 0 <= k < next.len() implies same_write(
                #[trigger] next[k],
                journal[after + k],
            ) by {
                if k < page.len() {
                    assert(next[k] == page[k]);
                } else {
                    assert(after + k == i);
                }
            }
            lemma_journal_page(
                journal,
                receipts,
                after,
                limit,
                now,
                i + 1,
                bytes + line_bytes(line),
                next,
            );
        }
    }
}

/// A page of a journal holds the lines right behind its watermark, in order and without a gap,
/// and at least one if there is any.
pub proof fn law_changelog_pages_leave_nothing_out(
    journal: Seq<JournalView>,
    receipts: Map<Seq<char>, ReceiptView>,
    after: u64,
    limit: nat,
    now: u64,
)
    requires
        forall|k: int| 0 <= k < journal.len() ==> (#[trigger] journal[k]).watermark == k + 1,
        after <= journal.len(),
    ensures
        ({
            let page = journal_page(journal, receipts, after, limit, now, 0, 0, Seq::empty());
            &&& page.len() <= journal.len() - after
            &&& forall|k: int|
                0 <= k < page.len() ==> same_write(#[trigger] page[k], journal[after + k])
            &&& after < journal.len() ==> page.len() > 0
        }),
{
    lemma_journal_page(journal, receipts, after, limit, now, 0, 0, Seq::empty());
}

proof fn lemma_journal_run(
    d: DestinationView,
    t: SnapshotView,
    start: Map<Seq<u8>, RecordView>,
    journal: Seq<JournalView>,
    from: nat,
    page: Seq<JournalView>,
    limit: nat,
    now: u64,
    i: nat,
)
    requires
        i <= page.len(),
        from + page.len() <= journal.len(),
        d.watermark == from + i,
        d.records == replayed(start, journal, from + i),
        forall|k: int| 0 <= k < journal.len() ==> (#[trigger] journal[k]).watermark == k + 1,
        forall|k: int| 0 <= k < page.len() ==> same_write(#[trigger] page[k], journal[from + k]),
        journal_run(d, t, page, limit, now, i).1 is None,
    ensures
        ({
            let e = journal_run(d, t, page, limit, now, i).0;
            &&& e.watermark == from + page.len()
            &&& e.records == replayed(start, journal, from + page.len())
            &&& e.range == d.range
        }),
    decreases page.len() - i,
{
    if i < page.len() {
        let line = page[i as int];
        assert(same_write(line, journal[(from + i) as int]));
        reveal(journal_step);
        let (e, fault) = journal_step(d, t, line, limit, now);
        assert(fault is None);
        let record = line.record->0;
        assert(with_brought(d, record, now).records == d.records);
        assert(e.records == with_record(d.records, record.key, carried(record)));
        assert(replayed(start, journal, (from + i + 1) as nat) == with_record(
            replayed(start, journal, from + i),
            journal[(from + i) as int].record->0.key,
            carried(journal[(from + i) as int].record->0),
        ));
        lemma_journal_run(e, t, start, journal, from, page, limit, now, i + 1);
    }
}

/// Each page of the journal that a copy takes in brings it forward by its lines: what it holds
/// is what it began with, changed as the journal says up to its watermark.
pub proof fn law_changelog_pages_bring_a_copy_forward(
    d: DestinationView,
    t: SnapshotView,
    start: Map<Seq<u8>, RecordView>,
    journal: Seq<JournalView>,
    page: Seq<JournalView>,
    limit: nat,
    now: u64,
)
    requires
        d.watermark + page.len() <= journal.len(),
        d.records == replayed(start, journal, d.watermark as nat),
        forall|k: int| 0 <= k < journal.len() ==> (#[trigger] journal[k]).watermark == k + 1,
        forall|k: int|
            0 <= k < page.len() ==> same_write(#[trigger] page[k], journal[d.watermark + k]),
        journal_run(d, t, page, limit, now, 0).1 is None,
    ensures
        ({
            let e = journal_run(d, t, page, limit, now, 0).0;
            &&& e.watermark == d.watermark + page.len()
            &&& e.records == replayed(start, journal, (d.watermark + page.len()) as nat)
            &&& e.range == d.range
        }),
{
    lemma_journal_run(d, t, start, journal, d.watermark as nat, page, limit, now, 0);
}

/// What is staged from pages of a snapshot, from key `i` on, is what was read: each record as it
/// stood, and nothing else beside what was staged before.
pub proof fn law_snapshot_pages_stage_what_was_read(
    d: DestinationView,
    t: SnapshotView,
    keys: Seq<Seq<u8>>,
    records: Map<Seq<u8>, RecordView>,
    i: nat,
)
    requires
        i <= keys.len(),
        keys.no_duplicates(),
        forall|k: int| 0 <= k < keys.len() ==> records.contains_key(#[trigger] keys[k]),
        forall|k: int| i <= k < keys.len() ==> !d.records.contains_key(#[trigger] keys[k]),
        snapshot_run(d, t, page_of(keys, records), i).1 is None,
    ensures
        ({
            let e = snapshot_run(d, t, page_of(keys, records), i).0;
            &&& e.watermark == d.watermark
            &&& e.range == d.range
            &&& forall|k: Seq<u8>| #[trigger]
                e.records.contains_key(k) <==> d.records.contains_key(k) || keys.subrange(
                    i as int,
                    keys.len() as int,
                ).contains(k)
            &&& forall|k: Seq<u8>|
                d.records.contains_key(k) ==> #[trigger] e.records[k] == d.records[k]
            &&& forall|k: int|
                i <= k < keys.len() ==> e.records[#[trigger] keys[k]] == records[keys[k]]
        }),
    decreases keys.len() - i,
{
    let page = page_of(keys, records);
    let rest = keys.subrange(i as int, keys.len() as int);
    if i < keys.len() {
        let key = keys[i as int];
        reveal(snapshot_step);
        let (f, fault) = snapshot_step(d, t, page[i as int]);
        assert(fault is None);
        assert(carried(outgoing(key, records[key])) == records[key]);
        assert(f.records == d.records.insert(key, records[key]));
        assert forall|k: int| i + 1 <= k < keys.len() implies !f.records.contains_key(
            #[trigger] keys[k],
        ) by {
            assert(keys[k] != keys[i as int]);
        }
        law_snapshot_pages_stage_what_was_read(f, t, keys, records, i + 1);
        let e = snapshot_run(d, t, page, i).0;
        let later = keys.subrange((i + 1) as int, keys.len() as int);
        assert forall|k: Seq<u8>| #[trigger] e.records.contains_key(k) <==> d.records.contains_key(k)
            || rest.contains(k) by {
            if rest.contains(k) {
                let p = choose|p: int| 0 <= p < rest.len() && rest[p] == k;
                if p > 0 {
                    assert(later[p - 1] == k);
                }
            }
            if later.contains(k) {
                let p = choose|p: int| 0 <= p < later.len() && later[p] == k;
                assert(rest[p + 1] == k);
            }
            assert(rest[0] == key);
        }
        assert forall|k: Seq<u8>| d.records.contains_key(k) implies #[trigger] e.records[k]
            == d.records[k] by {
            assert(f.records.contains_key(k));
            assert(f.records[k] == d.records[k]) by {
                assert(k != key);
            }
        }
        assert(e.records[key] == records[key]) by {
            assert(f.records.contains_key(key));
            assert(f.records[key] == records[key]);
        }
    } else {
        assert(rest.len() == 0);
    }
}

/// The page that holds the records of these keys.
pub open spec fn page_of(keys: Seq<Seq<u8>>, records: Map<Seq<u8>, RecordView>) -> Seq<
    MigrationRecordView,
> {
    Seq::new(keys.len(), |i: int| outgoing(keys[i], records[keys[i]]))
}

/// No line among the first `n` is newer than `record` under its key.
spec fn absorbs(journal: Seq<JournalView>, n: nat, key: Seq<u8>, record: RecordView) -> bool {
    forall|i: int|
        0 <= i < n && (#[trigger] journal[i]).record->0.key == key ==> version_position(
            carried(journal[i].record->0).version,
            record.version,
        ) != Position::After
}

/// What was there stays, or gives way to something newer that absorbs all lines so far.
proof fn lemma_replay_absorbs(
    base: Map<Seq<u8>, RecordView>,
    journal: Seq<JournalView>,
    n: nat,
    key: Seq<u8>,
)
    requires
        base.contains_key(key),
    ensures
        replayed(base, journal, n).contains_key(key),
        absorbs(journal, n, key, replayed(base, journal, n)[key]),
    decreases n,
{
    if n > 0 {
        lemma_replay_absorbs(base, journal, (n - 1) as nat, key);
        let before = replayed(base, journal, (n - 1) as nat);
        let now = replayed(base, journal, n);
        let line = journal[n - 1].record->0;
        assert forall|i: int|
            0 <= i < n && (#[trigger] journal[i]).record->0.key == key implies version_position(
            carried(journal[i].record->0).version,
            now[key].version,
        ) != Position::After by {
            let v = carried(journal[i].record->0).version;
            lemma_version_order(v, before[key].version, now[key].version);
            lemma_version_order(now[key].version, before[key].version, v);
            lemma_version_order(v, now[key].version, v);
        }
    }
}

/// Replaying lines over something that absorbs them changes nothing under its key.
proof fn lemma_absorbed(
    snap: Map<Seq<u8>, RecordView>,
    journal: Seq<JournalView>,
    n: nat,
    key: Seq<u8>,
)
    requires
        snap.contains_key(key),
        absorbs(journal, n, key, snap[key]),
    ensures
        replayed(snap, journal, n).contains_key(key),
        replayed(snap, journal, n)[key] == snap[key],
    decreases n,
{
    if n > 0 {
        lemma_absorbed(snap, journal, (n - 1) as nat, key);
        assert(journal[n - 1].record->0.key == key ==> version_position(
            carried(journal[n - 1].record->0).version,
            snap[key].version,
        ) != Position::After);
    }
}

proof fn lemma_caught_up(
    base: Map<Seq<u8>, RecordView>,
    snap: Map<Seq<u8>, RecordView>,
    journal: Seq<JournalView>,
    moment: nat,
    n: nat,
    key: Seq<u8>,
)
    requires
        base.contains_key(key),
        snap.contains_key(key),
        snap[key] == replayed(base, journal, moment)[key],
        moment <= n,
    ensures
        replayed(base, journal, n).contains_key(key),
        replayed(snap, journal, n).contains_key(key),
        replayed(snap, journal, n)[key] == replayed(base, journal, n)[key],
    decreases n,
{
    lemma_replay_absorbs(base, journal, n, key);
    if n == moment {
        lemma_absorbed(snap, journal, n, key);
    } else {
        lemma_caught_up(base, snap, journal, moment, (n - 1) as nat, key);
    }
}

proof fn lemma_new_keys(
    base: Map<Seq<u8>, RecordView>,
    snap: Map<Seq<u8>, RecordView>,
    journal: Seq<JournalView>,
    n: nat,
    key: Seq<u8>,
)
    requires
        !base.contains_key(key),
        !snap.contains_key(key),
    ensures
        replayed(base, journal, n).contains_key(key) == replayed(snap, journal, n).contains_key(
            key,
        ),
        replayed(base, journal, n).contains_key(key) ==> replayed(base, journal, n)[key]
            == replayed(snap, journal, n)[key],
    decreases n,
{
    if n > 0 {
        lemma_new_keys(base, snap, journal, (n - 1) as nat, key);
    }
}

/// A snapshot may be read key by key while writes go on, each key at a moment of its own: with
/// the whole journal replayed over it, it is what the range holds.
pub proof fn law_copies_catch_up(
    base: Map<Seq<u8>, RecordView>,
    snap: Map<Seq<u8>, RecordView>,
    journal: Seq<JournalView>,
    moment: spec_fn(Seq<u8>) -> nat,
)
    requires
        forall|k: Seq<u8>| #[trigger] snap.contains_key(k) <==> base.contains_key(k),
        forall|k: Seq<u8>| #[trigger]
            base.contains_key(k) ==> moment(k) <= journal.len() && snap[k] == replayed(
                base,
                journal,
                moment(k),
            )[k],
    ensures
        replayed(snap, journal, journal.len()) == replayed(base, journal, journal.len()),
{
    let a = replayed(snap, journal, journal.len());
    let b = replayed(base, journal, journal.len());
    assert forall|k: Seq<u8>|
        #![trigger a.contains_key(k)]
        #![trigger b.contains_key(k)]
        a.contains_key(k) == b.contains_key(k) && (a.contains_key(k) ==> a[k] == b[k]) by {
        if base.contains_key(k) {
            assert(snap.contains_key(k));
            lemma_caught_up(base, snap, journal, moment(k), journal.len(), k);
        } else {
            assert(!snap.contains_key(k));
            lemma_new_keys(base, snap, journal, journal.len(), k);
        }
    }
    assert(a.dom() =~= b.dom());
    assert(a =~= b);
}

/// A copy that began with such a snapshot and has come to the watermark of a tracked range holds
/// exactly what the range holds, so that both ends agree on their digests.
pub proof fn law_caught_up_copies_verify(
    n: NodeView,
    key: (Seq<char>, Seq<char>),
    base: Map<Seq<u8>, RecordView>,
    snap: Map<Seq<u8>, RecordView>,
    moment: spec_fn(Seq<u8>) -> nat,
    d: DestinationView,
)
    requires
        n.tracks(key, base),
        forall|k: Seq<u8>| #[trigger] snap.contains_key(k) <==> base.contains_key(k),
        forall|k: Seq<u8>| #[trigger]
            base.contains_key(k) ==> moment(k) <= n.sources[key].journal.len() && snap[k]
                == replayed(base, n.sources[key].journal, moment(k))[k],
        d.watermark == n.sources[key].watermark,
        d.records == replayed(snap, n.sources[key].journal, d.watermark as nat),
    ensures
        d.records == n.holding(n.sources[key].range),
        records_digest(d.records) == records_digest(n.holding(n.sources[key].range)),
{
    law_copies_catch_up(base, snap, n.sources[key].journal, moment);
}

/// A range that has moved answers as before: once its destination has taken a complete copy
/// over, and owns the key in the topology that follows with a lease, a read finds there what it
/// found at the source.
pub proof fn law_moved_ranges_answer_as_before(
    source: NodeView,
    destination: NodeView,
    key: (Seq<char>, Seq<char>),
    t: SnapshotView,
    expires_at: u64,
    k: Seq<u8>,
    now: u64,
    later: u64,
)
    requires
        source.sources.contains_key(key),
        destination.destinations.contains_key(key),
        destination.destinations[key].range == source.sources[key].range,
        destination.destinations[key].records == source.holding(source.sources[key].range),
        source.sources[key].range.covers(source.token(k)),
        source.limits == destination.limits,
        source.owner_fault(k, now) is None,
        destination.topology.hash_seed == source.topology.hash_seed,
        t.hash_seed == source.topology.hash_seed,
        t.owner_id(t.key_token(k)) == destination.node_id,
        later < expires_at,
    ensures
        ({
            let before = source.read(k, now);
            let after = destination.purged(now).taken_over(key, now).leased_under(
                t,
                expires_at,
            ).read(k, later);
            &&& after.value == before.value
            &&& after.version == before.version
            &&& after.error is None == before.error is None
        }),
{
    let p = destination.purged(now);
    let over = p.taken_over(key, now);
    let heir = over.leased_under(t, expires_at);
    let range = source.sources[key].range;
    law_topologies_keep_records(over, t, true);
    assert(p.records == destination.records);
    assert(p.destinations == destination.destinations);
    assert(p.limits == destination.limits && p.node_id == destination.node_id);
    let staged = destination.destinations[key].records;
    assert(staged.contains_key(k) == source.records.contains_key(k));
    let others = kept(p.records, outside(p.topology, range));
    assert(p.topology == destination.topology);
    assert(!others.contains_key(k));
    assert(over.records == merged(others, staged));
    assert(t.key_token(k) == source.token(k));
    assert(heir.owner_fault(k, later) is None);
    if source.records.contains_key(k) {
        assert(staged[k] == source.records[k]);
        assert(over.records.contains_key(k));
        assert(over.records[k] == source.records[k]);
    } else {
        assert(!over.records.contains_key(k));
    }
}

/// A write whose receipt has moved along is known at the destination: tried again there, it gets
/// the version that the source gave it, and waits for nobody.
pub proof fn law_moved_ranges_answer_retries(
    source: NodeView,
    destination: NodeView,
    key: (Seq<char>, Seq<char>),
    m: MutationView,
    sent: u64,
    now: u64,
)
    requires
        recall(source.receipts, m) is Known,
        destination.destinations.contains_key(key),
        destination.destinations[key].dedup.contains_key(m.request_id),
        destination.destinations[key].dedup[m.request_id].record == outgoing_receipt(
            m.request_id,
            source.receipts[m.request_id],
            sent,
        ),
        destination.destinations[key].dedup[m.request_id].expires_at > now,
        !destination.receipts.contains_key(m.request_id),
    ensures
        recall(destination.purged(now).taken_over(key, now).receipts, m) == Recall::Known(
            recall(source.receipts, m)->Known_0,
            Seq::empty(),
        ),
{
    let p = destination.purged(now);
    assert(p.destinations == destination.destinations);
    assert(!p.receipts.contains_key(m.request_id));
}

} // verus!
