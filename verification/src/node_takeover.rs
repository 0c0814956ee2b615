//! The moment at which a range that was staged becomes part of a node.
use crate::errors::{refusal, refused, Code, Status, StatusView};
use crate::node::{DataNode, DestinationView, NodeView, SpecView};
use crate::node_checkpoint::RangeControl;
use crate::node_ranges::{missing_destination, no_destination};
use crate::node_receipts::{lemma_shown_kept, spent};
use crate::order::same_bytes;
use crate::ordmap::{
    entry_index, kept, lemma_entry, lemma_listing, lemma_total_prefix, listing, listing_of, shown,
    total, unique_entries,
};
use crate::receipts::{
    ack_nodes, dedup_retained_bytes, receipt_cost, staged_sound, DedupView, ExpiringTable, Receipt,
    ReceiptView, StagedDedup, StagedTable, StagedView, IDEMPOTENCY_WINDOW_NANOS,
    RECEIPT_OVERHEAD_BYTES,
};
use crate::records::{
    apply_internal_record, copy_bytes, with_record, Record, RecordMap, RecordVersion, RecordView,
};
use crate::text::{byte_count, text_len};
use crate::topology::SnapshotView;
use crate::views::Duplicate;
use vstd::prelude::*;

verus! {

/// Records after others were laid over them, the newer of each kept.
pub open spec fn merged(
    base: Map<Seq<u8>, RecordView>,
    incoming: Map<Seq<u8>, RecordView>,
) -> Map<Seq<u8>, RecordView> {
    Map::new(
        |k: Seq<u8>| base.contains_key(k) || incoming.contains_key(k),
        |k: Seq<u8>|
            if incoming.contains_key(k) {
                with_record(base, k, incoming[k])[k]
            } else {
                base[k]
            },
    )
}

/// Lays records over others.
fn merge_records(into: &mut RecordMap, from: &RecordMap)
    ensures
        shown(*final(into)) == merged(shown(*old(into)), shown(*from)),
{
    from.expose();
    let ghost s = from.sequence();
    let ghost base = shown(*into);
    let ghost incoming = shown(*from);
    let ghost whole = merged(base, incoming);
    let mut i: usize = 0;
    while i < from.len()
        invariant
            s == from.sequence(),
            unique_entries(s),
            incoming == shown(*from),
            base == shown(*old(into)),
            whole == merged(base, incoming),
            i <= s.len(),
            forall|k: Seq<u8>|
                (forall|j: int| 0 <= j < i ==> (#[trigger] s[j]).0 != k) ==> (#[trigger] shown(
                    *into,
                ).contains_key(k) == base.contains_key(k) && shown(*into)[k] == base[k]),
            forall|j: int|
                0 <= j < i ==> shown(*into).contains_key((#[trigger] s[j]).0) && shown(
                    *into,
                )[s[j].0] == whole[s[j].0],
        decreases s.len() - i,
    {
        let ghost before = shown(*into);
        proof {
            lemma_entry(s, i as int);
            assert(forall|j: int| 0 <= j < i ==> (#[trigger] s[j]).0 != s[i as int].0);
            assert(before.contains_key(s[i as int].0) == base.contains_key(s[i as int].0));
            assert(incoming.contains_key(s[i as int].0));
        }
        let key = copy_bytes(from.key_at(i).as_slice());
        let record = from.value_at(i).duplicate();
        apply_internal_record(into, key, record);
        proof {
            let x = s[i as int].0;
            assert(shown(*into)[x] == whole[x]);
            assert forall|k: Seq<u8>|
                (forall|j: int| 0 <= j < i + 1 ==> (#[trigger] s[j]).0 != k) implies (#[trigger] shown(
                *into,
            ).contains_key(k) == base.contains_key(k) && shown(*into)[k] == base[k]) by {
                assert(s[i as int].0 != k);
                assert(before.contains_key(k) == base.contains_key(k));
            }
        }
        i = i + 1;
    }
    proof {
        assert forall|k: Seq<u8>| #[trigger] shown(*into).contains_key(k) == whole.contains_key(k)
            && (whole.contains_key(k) ==> shown(*into)[k] == whole[k]) by {
            if incoming.contains_key(k) {
                let j = entry_index(s, k);
                lemma_entry(s, j);
            } else {
                assert forall|j: int| 0 <= j < s.len() implies (#[trigger] s[j]).0 != k by {
                    lemma_entry(s, j);
                }
                assert(shown(*into).contains_key(k) == base.contains_key(k));
            }
        }
        assert(shown(*into) =~= whole);
    }
}

/// A receipt as it is kept once its range was taken over.
pub open spec fn arrived(s: StagedView) -> ReceiptView {
    ReceiptView {
        key: s.record.key,
        fingerprint: s.record.fingerprint,
        version: s.record.version->0,
        deleted: s.record.deleted,
        retained_bytes: arrival_cost(s.record) as usize,
        expires_at: s.expires_at,
        required_acks: Seq::empty(),
    }
}

/// What the receipt of a range that is taken over costs.
pub open spec fn arrival_cost(record: DedupView) -> nat {
    receipt_cost(
        record.mutation_id,
        record.key.len(),
        byte_count(record.version->0.owner_node_id),
    )
}

/// What a staged receipt adds to these receipts at `now`.
pub open spec fn new_cost(receipts: Map<Seq<char>, ReceiptView>, now: u64) -> spec_fn(
    StagedView,
) -> nat {
    |s: StagedView|
        if s.expires_at > now && !receipts.contains_key(s.record.mutation_id) {
            arrival_cost(s.record)
        } else {
            0
        }
}

/// What staged receipts add to these receipts at `now`.
pub open spec fn added_bytes(
    receipts: Map<Seq<char>, ReceiptView>,
    staged: Map<Seq<char>, StagedView>,
    now: u64,
) -> nat {
    total(listing_of::<String, StagedView>(staged), new_cost(receipts, now))
}

/// Some live staged receipt is of another write than the receipt of its name.
pub open spec fn receipts_conflict(
    receipts: Map<Seq<char>, ReceiptView>,
    staged: Map<Seq<char>, StagedView>,
    now: u64,
) -> bool {
    exists|id: Seq<char>| #[trigger]
        staged.contains_key(id) && staged[id].expires_at > now && receipts.contains_key(id) && !(
        receipts[id].fingerprint == staged[id].record.fingerprint && Some(receipts[id].version)
            == staged[id].record.version && receipts[id].deleted == staged[id].record.deleted)
}

/// Receipts together with live staged ones.
pub open spec fn receipts_with(
    receipts: Map<Seq<char>, ReceiptView>,
    staged: Map<Seq<char>, StagedView>,
    now: u64,
) -> Map<Seq<char>, ReceiptView> {
    Map::new(
        |id: Seq<char>|
            receipts.contains_key(id) || (staged.contains_key(id) && staged[id].expires_at > now),
        |id: Seq<char>|
            if receipts.contains_key(id) {
                receipts[id]
            } else {
                arrived(staged[id])
            },
    )
}

fn wide_arrival_cost(record: &StagedDedup) -> (r: u128)
    requires
        record.record@.version is Some,
    ensures
        r == arrival_cost(record.record@),
{
    let owner = match &record.record.version {
        Some(version) => text_len(version.owner_node_id.as_str()),
        None => 0,
    };
    text_len(record.record.mutation_id.as_str()) as u128 + record.record.key.len() as u128
        + owner as u128 + RECEIPT_OVERHEAD_BYTES as u128
}

/// As far as the counter reaches.
spec fn capped(n: nat) -> nat {
    if n <= u128::MAX {
        n
    } else {
        u128::MAX as nat
    }
}

/// What of staged receipts collides with receipts, or what it adds to them.
fn weigh_staged(receipts: &ExpiringTable<Receipt>, staged: &StagedTable, now: u64) -> (r: Option<
    u128,
>)
    requires
        staged_sound(shown(staged.entries)),
    ensures
        r is None == receipts_conflict(shown(receipts.entries), shown(staged.entries), now),
        r matches Some(bytes) ==> bytes == capped(
            added_bytes(shown(receipts.entries), shown(staged.entries), now),
        ),
{
    staged.entries.expose();
    let ghost m = shown(receipts.entries);
    let ghost st = shown(staged.entries);
    let ghost s = staged.entries.sequence();
    let ghost l = listing(staged.entries);
    let ghost f = new_cost(m, now);
    proof {
        lemma_listing(staged.entries);
        assert(l.subrange(0, 0) =~= Seq::empty());
    }
    let mut bytes: u128 = 0;
    let mut i: usize = 0;
    while i < staged.entries.len()
        invariant
            staged_sound(st),
            m == shown(receipts.entries),
            st == shown(staged.entries),
            s == staged.entries.sequence(),
            unique_entries(s),
            l == listing(staged.entries),
            l.len() == s.len(),
            f == new_cost(m, now),
            i <= s.len(),
            bytes == capped(total(l.subrange(0, i as int), f)),
            forall|j: int|
                0 <= j < i ==> !(st[(#[trigger] s[j]).0].expires_at > now && m.contains_key(s[j].0)
                    && !(m[s[j].0].fingerprint == st[s[j].0].record.fingerprint && Some(
                    m[s[j].0].version,
                ) == st[s[j].0].record.version && m[s[j].0].deleted == st[s[j].0].record.deleted)),
        decreases s.len() - i,
    {
        let entry = staged.entries.value_at(i);
        proof {
            lemma_entry(s, i as int);
            lemma_total_prefix(l, i as int, f);
            assert(l[i as int] == (s[i as int].0, entry@));
            assert(st.contains_key(s[i as int].0));
            assert(st[s[i as int].0] == entry@);
        }
        if entry.expires_at > now {
            match receipts.entries.get(&entry.record.mutation_id) {
                Some(existing) => {
                    let same_version = match &entry.record.version {
                        Some(version) => existing.version.same(version),
                        None => false,
                    };
                    let same = same_version && existing.deleted == entry.record.deleted
                        && same_bytes(
                        existing.fingerprint.as_slice(),
                        entry.record.fingerprint.as_slice(),
                    );
                    if !same {
                        proof {
                            let id = s[i as int].0;
                            assert(st.contains_key(id) && st[id].expires_at > now
                                && m.contains_key(id));
                        }
                        return None;
                    }
                },
                None => {
                    bytes = bytes.saturating_add(wide_arrival_cost(entry));
                },
            }
        }
        i = i + 1;
    }
    proof {
        assert(l.subrange(0, l.len() as int) =~= l);
        if receipts_conflict(m, st, now) {
            let id = choose|id: Seq<char>| #[trigger]
                st.contains_key(id) && st[id].expires_at > now && m.contains_key(id) && !(
                m[id].fingerprint == st[id].record.fingerprint && Some(m[id].version)
                    == st[id].record.version && m[id].deleted == st[id].record.deleted);
            let j = entry_index(s, id);
            lemma_entry(s, j);
        }
    }
    Some(bytes)
}

/// Adds live staged receipts to receipts.
fn merge_receipts(into: &mut ExpiringTable<Receipt>, staged: &StagedTable, now: u64)
    requires
        old(into).wf(),
        staged_sound(shown(staged.entries)),
        old(into).bytes + added_bytes(shown(old(into).entries), shown(staged.entries), now)
            <= usize::MAX,
    ensures
        final(into).wf(),
        shown(final(into).entries) == receipts_with(
            shown(old(into).entries),
            shown(staged.entries),
            now,
        ),
        final(into).bytes == old(into).bytes + added_bytes(
            shown(old(into).entries),
            shown(staged.entries),
            now,
        ),
{
    staged.entries.expose();
    let ghost m = shown(into.entries);
    let ghost b0 = into.bytes as nat;
    let ghost st = shown(staged.entries);
    let ghost s = staged.entries.sequence();
    let ghost l = listing(staged.entries);
    let ghost f = new_cost(m, now);
    let ghost whole = receipts_with(m, st, now);
    proof {
        lemma_listing(staged.entries);
        assert(l.subrange(0, 0) =~= Seq::empty());
    }
    let mut i: usize = 0;
    while i < staged.entries.len()
        invariant
            into.wf(),
            staged_sound(st),
            m == shown(old(into).entries),
            b0 == old(into).bytes,
            st == shown(staged.entries),
            s == staged.entries.sequence(),
            unique_entries(s),
            l == listing(staged.entries),
            l.len() == s.len(),
            f == new_cost(m, now),
            whole == receipts_with(m, st, now),
            i <= s.len(),
            b0 + total(l, f) <= usize::MAX,
            into.bytes == b0 + total(l.subrange(0, i as int), f),
            forall|id: Seq<char>|
                (forall|j: int| 0 <= j < i ==> (#[trigger] s[j]).0 != id) ==> (
                #[trigger] shown(into.entries).contains_key(id) == m.contains_key(id) && shown(
                    into.entries,
                )[id] == m[id]),
            forall|j: int|
                0 <= j < i ==> shown(into.entries).contains_key((#[trigger] s[j]).0)
                    == whole.contains_key(s[j].0) && (whole.contains_key(s[j].0) ==> shown(
                    into.entries,
                )[s[j].0] == whole[s[j].0]),
        decreases s.len() - i,
    {
        let entry = staged.entries.value_at(i);
        let ghost before = shown(into.entries);
        let ghost x = s[i as int].0;
        proof {
            lemma_entry(s, i as int);
            lemma_total_prefix(l, i as int, f);
            lemma_total_prefix(l, i + 1, f);
            assert(l[i as int] == (x, entry@));
            assert(st.contains_key(x));
            assert(st[x] == entry@);
            assert(forall|j: int| 0 <= j < i ==> (#[trigger] s[j]).0 != x);
            assert(before.contains_key(x) == m.contains_key(x));
        }
        if entry.expires_at > now && !into.entries.contains(&entry.record.mutation_id) {
            let owner_len = match &entry.record.version {
                Some(version) => text_len(version.owner_node_id.as_str()),
                None => 0,
            };
            let cost = dedup_retained_bytes(
                entry.record.mutation_id.as_str(),
                entry.record.key.len(),
                owner_len,
            );
            let version = match &entry.record.version {
                Some(version) => version.clone(),
                None => RecordVersion {
                    topology_epoch: 0,
                    owner_sequence: 0,
                    owner_node_id: String::new(),
                },
            };
            let receipt = Receipt {
                key: copy_bytes(entry.record.key.as_slice()),
                fingerprint: copy_bytes(entry.record.fingerprint.as_slice()),
                version: version,
                deleted: entry.record.deleted,
                retained_bytes: cost,
                expires_at: entry.expires_at,
                required_acks: Vec::new(),
            };
            proof {
                assert(receipt@.required_acks =~= Seq::empty());
                assert(receipt@ =~= arrived(entry@));
            }
            let ghost noted = receipt@;
            into.add(entry.record.mutation_id.clone(), receipt);
            proof {
                assert(shown(into.entries) =~= before.insert(x, noted));
            }
        }
        proof {
            assert forall|id: Seq<char>|
                (forall|j: int| 0 <= j < i + 1 ==> (#[trigger] s[j]).0 != id) implies (
            #[trigger] shown(into.entries).contains_key(id) == m.contains_key(id) && shown(
                into.entries,
            )[id] == m[id]) by {
                assert(s[i as int].0 != id);
                assert(before.contains_key(id) == m.contains_key(id));
            }
        }
        i = i + 1;
    }
    proof {
        assert(l.subrange(0, l.len() as int) =~= l);
        let now_held = shown(into.entries);
        assert forall|id: Seq<char>| #[trigger] now_held.contains_key(id) == whole.contains_key(id)
            && (whole.contains_key(id) ==> now_held[id] == whole[id]) by {
            if st.contains_key(id) {
                let j = entry_index(s, id);
                lemma_entry(s, j);
            } else {
                assert forall|j: int| 0 <= j < s.len() implies (#[trigger] s[j]).0 != id by {
                    lemma_entry(s, j);
                }
                assert(now_held.contains_key(id) == m.contains_key(id));
            }
        }
        assert(now_held =~= whole);
    }
}

/// Records outside a range.
pub open spec fn outside(t: SnapshotView, range: SpecView) -> spec_fn(Seq<u8>, RecordView) -> bool {
    |k: Seq<u8>, v: RecordView| !range.covers(t.key_token(k))
}

impl NodeView {
    /// Why the range of a staging area is not taken over at `now`, if it is not.
    pub open spec fn takeover_fault(self, d: DestinationView, now: u64) -> Option<StatusView> {
        if receipts_conflict(self.receipts, d.dedup, now) {
            Some(
                refusal(
                    Code::FailedPrecondition,
                    "destination mutation ID conflicts with existing retry record"@,
                ),
            )
        } else if spent(self.receipts) + added_bytes(self.receipts, d.dedup, now)
            > self.limits.max_dedup_bytes {
            Some(refusal(Code::ResourceExhausted, "destination mutation retry window is full"@))
        } else {
            None
        }
    }

    /// The node after it took a range over: what it held of the range is replaced.
    pub open spec fn taken_over(self, key: (Seq<char>, Seq<char>), now: u64) -> NodeView {
        let d = self.destinations[key];
        NodeView {
            records: merged(kept(self.records, outside(self.topology, d.range)), d.records),
            receipts: receipts_with(self.receipts, d.dedup, now),
            destinations: self.destinations.insert(
                key,
                DestinationView { committed: true, ..d },
            ),
            ..self
        }
    }
}

impl DataNode {
    fn replace_range(&mut self, i: usize)
        requires
            old(self).wf(),
            i < old(self).destinations.sequence().len(),
        ensures
            final(self).wf(),
            final(self).dedup_peak_bytes == old(self).dedup_peak_bytes,
            final(self).receipts == old(self).receipts,
            final(self).destinations == old(self).destinations,
            ({
                let d = old(self).destinations.sequence()[i as int].1@;
                final(self)@ == (NodeView {
                    records: merged(
                        kept(old(self)@.records, outside(old(self)@.topology, d.range)),
                        d.records,
                    ),
                    ..old(self)@
                })
            }),
    {
        let ghost start = *self;
        let ghost d = self.destinations.sequence()[i as int].1@;
        let range = self.destinations.value_at(i).range.duplicate();
        let topology = &self.topology;
        let ghost t = topology@;
        let ghost spec = range@;
        let ghost before = self.records;
        let ghost p = |k: Seq<u8>, v: Record| !spec.covers(t.key_token(k));
        let keep = |k: &Vec<u8>, v: &Record| -> (b: bool)
            ensures
                b == !range@.covers(topology@.key_token(k@)),
        {
            !range.contains(topology.key_token(k.as_slice()))
        };
        self.records.retain(keep, Ghost(p));
        proof {
            lemma_shown_kept(before, self.records, p, outside(t, spec));
        }
        merge_records(&mut self.records, &self.destinations.value_at(i).records);
        proof {
            assert(self@ =~= NodeView {
                records: merged(kept(start@.records, outside(t, spec)), d.records),
                ..start@
            });
        }
    }

    /// Makes a staged range part of this node. A range that was taken over before stays as
    /// it is.
    pub fn commit_destination_range(&mut self, control: &RangeControl, now: u64) -> (r: Result<
        (),
        Status,
    >)
        requires
            old(self).wf(),
            now + IDEMPOTENCY_WINDOW_NANOS <= u64::MAX,
        ensures
            final(self).wf(),
            final(self).peak_noted(*old(self)),
            old(self).receipts_in_room() ==> final(self).receipts_in_room(),
            ({
                let p = old(self)@.purged(now);
                let d = old(self)@.destinations[control@];
                if !old(self)@.destinations.contains_key(control@) {
                    refused(r) == Some(no_destination()) && final(self)@ == old(self)@
                } else if d.committed {
                    r is Ok && final(self)@ == old(self)@
                } else {
                    refused(r) == p.takeover_fault(d, now) && final(self)@ == if r is Ok {
                        p.taken_over(control@, now)
                    } else {
                        p
                    }
                }
            }),
    {
        let ghost start = *self;
        let (i, found) = self.destinations.locate(&control.key());
        if !found {
            return Err(missing_destination());
        }
        if self.destinations.value_at(i).committed {
            return Ok(());
        }
        self.purge_expired_dedup(now);
        let ghost p = start@.purged(now);
        let ghost d = start@.destinations[control@];
        proof {
            assert(start@.destinations.contains_key(control@));
            assert(p.destinations == start@.destinations);
            assert(self@.destinations.contains_key(control@));
            assert(self.destinations@.contains_key(control@));
        }
        let (i, _) = self.destinations.locate(&control.key());
        self.destinations.expose();
        proof {
            lemma_entry(self.destinations.sequence(), i as int);
            assert(self.destinations.sequence()[i as int].1@ == d);
        }
        let added = match weigh_staged(
            &self.receipts,
            &self.destinations.value_at(i).dedup,
            now,
        ) {
            Some(added) => added,
            None => {
                return Err(
                    Status::new(
                        Code::FailedPrecondition,
                        "destination mutation ID conflicts with existing retry record",
                    ),
                );
            },
        };
        let limit = self.limits.max_dedup_bytes as u128;
        if added > limit || self.receipts.bytes as u128 > limit - added {
            return Err(
                Status::new(Code::ResourceExhausted, "destination mutation retry window is full"),
            );
        }
        self.replace_range(i);
        merge_receipts(&mut self.receipts, &self.destinations.value_at(i).dedup, now);
        if self.dedup_peak_bytes < self.receipts.bytes {
            self.dedup_peak_bytes = self.receipts.bytes;
        }
        let ghost s = self.destinations.sequence();
        let destination = self.destinations.value_mut_at(i);
        destination.committed = true;
        proof {
            let n = p.taken_over(control@, now);
            assert forall|id: Seq<char>| #[trigger]
                self@.receipts.contains_key(id) implies self@.receipts[id].covered() by {
                if !p.receipts.contains_key(id) {
                    let a = arrived(d.dedup[id]);
                    assert(ack_nodes(a.required_acks) =~= Seq::empty());
                }
            }
            assert(self@.destinations =~= n.destinations);
            assert(self@ =~= n);
        }
        Ok(())
    }
}

} // verus!
