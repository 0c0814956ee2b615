//! Ranges that a node hands over or takes over, from their preparation to their end.
use crate::errors::{refusal, refused, Code, Status, StatusView};
use crate::node::{
    journal_measure, DataNode, DestinationMigration, DestinationView, NodeView, RangeSpec,
    SourceMigration, SourceView, SpecView,
};
use crate::node_checkpoint::RangeControl;
use crate::node_receipts::lemma_shown_kept;
use crate::ordmap::{
    entry_index, kept, lemma_entry, lemma_listing, lemma_total_insert, lemma_total_remove,
    lemma_total_update, listing_of, shown, MapKey, SortedMap,
};
use crate::receipts::{ExpiringTable, ReceiptView};
use crate::records::{
    copy_bytes, range_digest, records_digest, RangeDigest, Record, RecordMap, RecordView,
};
use crate::text::{same_text, strs_have};
use crate::topology::{SnapshotView, TopologySnapshot};
use crate::views::{views, Duplicate};
use vstd::prelude::*;

verus! {

/// A range to hand over of which nothing is copied yet.
pub open spec fn fresh_source(range: SpecView) -> SourceView {
    SourceView {
        range: range,
        snapshot_keys: None,
        snapshot_dedup_ids: Seq::empty(),
        journal: Seq::empty(),
        journal_bytes: 0,
        watermark: 0,
        writes_paused: false,
    }
}

/// A range to take over of which nothing has arrived yet.
pub open spec fn fresh_destination(range: SpecView) -> DestinationView {
    DestinationView {
        range: range,
        records: Map::empty(),
        dedup: Map::empty(),
        watermark: 0,
        committed: false,
        writes_activated: false,
    }
}

/// What was held when a range was prepared: the keys, and the names of writes with theirs.
#[derive(Debug)]
pub struct Captured {
    pub keys: Vec<Vec<u8>>,
    pub receipts: Vec<(String, Vec<u8>)>,
}

/// The keys of a listing.
pub open spec fn listed_keys(records: Map<Seq<u8>, RecordView>) -> Seq<Seq<u8>> {
    let l = listing_of::<Vec<u8>, RecordView>(records);
    Seq::new(l.len(), |i: int| l[i].0)
}

/// The names of writes in ascending order, each with its key.
pub open spec fn listed_receipts(receipts: Map<Seq<char>, ReceiptView>) -> Seq<
    (Seq<char>, Seq<u8>),
> {
    let l = listing_of::<String, ReceiptView>(receipts);
    Seq::new(l.len(), |i: int| (l[i].0, l[i].1.key))
}

/// What names of writes with their keys stand for.
pub open spec fn named_keys(list: Seq<(String, Vec<u8>)>) -> Seq<(Seq<char>, Seq<u8>)> {
    Seq::new(list.len(), |i: int| (list[i].0@, list[i].1@))
}

/// The first `n` of these keys that a range holds.
pub open spec fn keys_within(
    keys: Seq<Seq<u8>>,
    t: SnapshotView,
    range: SpecView,
    n: nat,
) -> Seq<Seq<u8>>
    decreases n,
{
    if n == 0 {
        Seq::empty()
    } else {
        let rest = keys_within(keys, t, range, (n - 1) as nat);
        if range.covers(t.key_token(keys[n - 1])) {
            rest.push(keys[n - 1])
        } else {
            rest
        }
    }
}

/// The names among the first `n` of these writes whose keys a range holds.
pub open spec fn names_within(
    list: Seq<(Seq<char>, Seq<u8>)>,
    t: SnapshotView,
    range: SpecView,
    n: nat,
) -> Seq<Seq<char>>
    decreases n,
{
    if n == 0 {
        Seq::empty()
    } else {
        let rest = names_within(list, t, range, (n - 1) as nat);
        if range.covers(t.key_token(list[n - 1].1)) {
            rest.push(list[n - 1].0)
        } else {
            rest
        }
    }
}

/// The keys of a range among those that were captured.
pub fn snapshot_keys(keys: &Vec<Vec<u8>>, topology: &TopologySnapshot, range: &RangeSpec) -> (r: Vec<
    Vec<u8>,
>)
    ensures
        views(r@) == keys_within(views(keys@), topology@, range@, keys@.len()),
{
    let ghost k = views(keys@);
    let mut r: Vec<Vec<u8>> = Vec::new();
    let mut i: usize = 0;
    proof {
        assert(views(r@) =~= Seq::empty());
    }
    while i < keys.len()
        invariant
            k == views(keys@),
            i <= keys@.len(),
            views(r@) == keys_within(k, topology@, range@, i as nat),
        decreases keys.len() - i,
    {
        proof {
            assert(k[i as int] == keys@[i as int]@);
        }
        if range.contains(topology.key_token(keys[i].as_slice())) {
            let key = copy_bytes(keys[i].as_slice());
            proof {
                crate::views::lemma_views_push(r@, key);
            }
            r.push(key);
        }
        i = i + 1;
    }
    r
}

/// The names of writes in a range among those that were captured.
pub fn snapshot_names(
    list: &Vec<(String, Vec<u8>)>,
    topology: &TopologySnapshot,
    range: &RangeSpec,
) -> (r: Vec<String>)
    ensures
        views(r@) == names_within(named_keys(list@), topology@, range@, list@.len()),
{
    let ghost k = named_keys(list@);
    let mut r: Vec<String> = Vec::new();
    let mut i: usize = 0;
    proof {
        assert(views(r@) =~= Seq::empty());
    }
    while i < list.len()
        invariant
            k == named_keys(list@),
            i <= list@.len(),
            views(r@) == names_within(k, topology@, range@, i as nat),
        decreases list.len() - i,
    {
        proof {
            assert(k[i as int] == (list@[i as int].0@, list@[i as int].1@));
        }
        if range.contains(topology.key_token(list[i].1.as_slice())) {
            let name = list[i].0.clone();
            proof {
                crate::views::lemma_views_push(r@, name);
            }
            r.push(name);
        }
        i = i + 1;
    }
    r
}

impl NodeView {
    /// Why a range is not prepared to be handed over, if it is not.
    pub open spec fn source_fault(self, range: SpecView) -> Option<StatusView> {
        if range.source_node_id != self.node_id {
            Some(refusal(Code::FailedPrecondition, "this node is not the range source"@))
        } else if self.sources.contains_key(range.key()) && self.sources[range.key()].range
            != range {
            Some(
                refusal(
                    Code::FailedPrecondition,
                    "source range retry conflicts with the prepared specification"@,
                ),
            )
        } else {
            None
        }
    }

    /// Why a range is not prepared to be taken over, if it is not.
    pub open spec fn destination_fault(self, range: SpecView) -> Option<StatusView> {
        if range.destination_node_id != self.node_id {
            Some(refusal(Code::FailedPrecondition, "this node is not the range destination"@))
        } else if self.destinations.contains_key(range.key())
            && self.destinations[range.key()].range != range {
            Some(
                refusal(
                    Code::FailedPrecondition,
                    "destination range retry conflicts with the prepared specification"@,
                ),
            )
        } else {
            None
        }
    }

    /// Why a snapshot cannot be attached to its range, if it cannot.
    pub open spec fn snapshot_fault(self, range: SpecView) -> Option<StatusView> {
        if !self.sources.contains_key(range.key()) {
            Some(refusal(Code::Aborted, "source migration was reset during preparation"@))
        } else if self.sources[range.key()].range != range {
            Some(refusal(Code::FailedPrecondition, "source range changed during preparation"@))
        } else {
            None
        }
    }
}

/// The range to hand over is not there.
pub open spec fn no_source() -> StatusView {
    refusal(Code::NotFound, "source migration not prepared"@)
}

/// The range to take over is not there.
pub open spec fn no_destination() -> StatusView {
    refusal(Code::NotFound, "destination migration not prepared"@)
}

pub fn missing_source() -> (r: Status)
    ensures
        r@ == no_source(),
{
    Status::new(Code::NotFound, "source migration not prepared")
}

pub fn missing_destination() -> (r: Status)
    ensures
        r@ == no_destination(),
{
    Status::new(Code::NotFound, "destination migration not prepared")
}

impl DataNode {
    fn capture_keys(&self) -> (r: Vec<Vec<u8>>)
        ensures
            views(r@) == listed_keys(self@.records),
    {
        self.records.expose();
        let ghost s = self.records.sequence();
        let mut r: Vec<Vec<u8>> = Vec::new();
        let mut i: usize = 0;
        while i < self.records.len()
            invariant
                s == self.records.sequence(),
                i <= s.len(),
                r@.len() == i,
                forall|j: int| 0 <= j < i ==> (#[trigger] r@[j])@ == s[j].0,
            decreases s.len() - i,
        {
            r.push(copy_bytes(self.records.key_at(i).as_slice()));
            i = i + 1;
        }
        proof {
            lemma_listing(self.records);
            assert(views(r@) =~= listed_keys(self@.records));
        }
        r
    }

    fn capture_receipts(&self) -> (r: Vec<(String, Vec<u8>)>)
        ensures
            named_keys(r@) == listed_receipts(self@.receipts),
    {
        self.receipts.entries.expose();
        let ghost s = self.receipts.entries.sequence();
        let mut r: Vec<(String, Vec<u8>)> = Vec::new();
        let mut i: usize = 0;
        while i < self.receipts.entries.len()
            invariant
                s == self.receipts.entries.sequence(),
                i <= s.len(),
                r@.len() == i,
                forall|j: int|
                    0 <= j < i ==> (#[trigger] r@[j]).0@ == s[j].0 && r@[j].1@ == s[j].1.key@,
            decreases s.len() - i,
        {
            let name = self.receipts.entries.key_at(i).clone();
            r.push((name, copy_bytes(self.receipts.entries.value_at(i).key.as_slice())));
            i = i + 1;
        }
        proof {
            lemma_listing(self.receipts.entries);
            assert(named_keys(r@) =~= listed_receipts(self@.receipts));
        }
        r
    }

    /// Prepares a range to be handed over. From then on its writes are journaled. What the
    /// range holds is chosen from what is captured here and attached later.
    pub fn prepare_source_range(&mut self, range: &RangeSpec) -> (r: Result<
        Option<Captured>,
        Status,
    >)
        requires
            old(self).wf(),
        ensures
            final(self).wf(),
            final(self).dedup_peak_bytes == old(self).dedup_peak_bytes,
            refused(r) == old(self)@.source_fault(range@),
            r matches Ok(captured) ==> captured is Some == !old(self)@.sources.contains_key(
                range@.key(),
            ),
            r matches Ok(Some(captured)) ==> {
                &&& views(captured.keys@) == listed_keys(old(self)@.records)
                &&& named_keys(captured.receipts@) == listed_receipts(old(self)@.receipts)
            },
            final(self)@ == if r matches Ok(Some(_)) {
                NodeView {
                    sources: old(self)@.sources.insert(range@.key(), fresh_source(range@)),
                    ..old(self)@
                }
            } else {
                old(self)@
            },
    {
        let ghost start = *self;
        if !same_text(range.source_node_id.as_str(), self.node_id.as_str()) {
            return Err(Status::new(Code::FailedPrecondition, "this node is not the range source"));
        }
        let key = range.key();
        let (i, found) = self.sources.locate(&key);
        if found {
            if !self.sources.value_at(i).range.same(range) {
                return Err(
                    Status::new(
                        Code::FailedPrecondition,
                        "source range retry conflicts with the prepared specification",
                    ),
                );
            }
            return Ok(None);
        }
        let captured = Captured { keys: self.capture_keys(), receipts: self.capture_receipts() };
        let source = SourceMigration {
            range: range.duplicate(),
            snapshot_keys: None,
            snapshot_dedup_ids: Vec::new(),
            journal: Vec::new(),
            journal_bytes: 0,
            watermark: 0,
            writes_paused: false,
        };
        let ghost s = self.sources.sequence();
        proof {
            lemma_total_insert(s, i as int, (key.id(), source), journal_measure());
            assert(source@ =~= fresh_source(range@));
        }
        self.sources.insert_at(i, key, source);
        proof {
            assert(self@.sources =~= start@.sources.insert(range@.key(), fresh_source(range@)));
            assert(self@ =~= NodeView {
                sources: start@.sources.insert(range@.key(), fresh_source(range@)),
                ..start@
            });
        }
        Ok(Some(captured))
    }

    /// Attaches to a range what it holds.
    pub fn attach_snapshot(
        &mut self,
        range: &RangeSpec,
        keys: Vec<Vec<u8>>,
        names: Vec<String>,
    ) -> (r: Result<(), Status>)
        requires
            old(self).wf(),
        ensures
            final(self).wf(),
            final(self).dedup_peak_bytes == old(self).dedup_peak_bytes,
            refused(r) == old(self)@.snapshot_fault(range@),
            final(self)@ == if r is Ok {
                NodeView {
                    sources: old(self)@.sources.insert(
                        range@.key(),
                        SourceView {
                            snapshot_keys: Some(views(keys@)),
                            snapshot_dedup_ids: views(names@),
                            ..old(self)@.sources[range@.key()]
                        },
                    ),
                    ..old(self)@
                }
            } else {
                old(self)@
            },
    {
        let ghost start = *self;
        let (i, found) = self.sources.locate(&range.key());
        if !found {
            return Err(
                Status::new(Code::Aborted, "source migration was reset during preparation"),
            );
        }
        if !self.sources.value_at(i).range.same(range) {
            return Err(
                Status::new(Code::FailedPrecondition, "source range changed during preparation"),
            );
        }
        let ghost s = self.sources.sequence();
        let source = self.sources.value_mut_at(i);
        source.snapshot_keys = Some(keys);
        source.snapshot_dedup_ids = names;
        proof {
            lemma_total_update(
                s,
                i as int,
                self.sources.sequence()[i as int],
                journal_measure(),
            );
            let n = NodeView {
                sources: start@.sources.insert(
                    range@.key(),
                    SourceView {
                        snapshot_keys: Some(views(keys@)),
                        snapshot_dedup_ids: views(names@),
                        ..start@.sources[range@.key()]
                    },
                ),
                ..start@
            };
            assert(self@.sources =~= n.sources);
            assert(self@ =~= n);
        }
        Ok(())
    }

    /// Drops a range that is handed over.
    pub fn drop_source(&mut self, key: &(String, String))
        requires
            old(self).wf(),
        ensures
            final(self).wf(),
            final(self).dedup_peak_bytes == old(self).dedup_peak_bytes,
            final(self)@ == (NodeView { sources: old(self)@.sources.remove(key.id()), ..old(self)@ }),
            final(self).receipts == old(self).receipts,
    {
        let ghost start = *self;
        let (i, found) = self.sources.locate(key);
        if found {
            proof {
                lemma_total_remove(self.sources.sequence(), i as int, journal_measure());
            }
            let source = self.sources.remove_at(i);
            self.journal_bytes_total = self.journal_bytes_total - source.journal_bytes;
        }
        proof {
            assert(self@.sources =~= start@.sources.remove(key.id()));
            assert(self@ =~= NodeView { sources: start@.sources.remove(key.id()), ..start@ });
        }
    }

    /// Drops a range whose preparation was cut short.
    pub fn cancel_source_range(&mut self, key: &(String, String))
        requires
            old(self).wf(),
        ensures
            final(self).wf(),
            final(self).dedup_peak_bytes == old(self).dedup_peak_bytes,
            final(self)@ == if old(self)@.sources.contains_key(key.id())
                && old(self)@.sources[key.id()].snapshot_keys is None {
                NodeView { sources: old(self)@.sources.remove(key.id()), ..old(self)@ }
            } else {
                old(self)@
            },
    {
        let unfinished = match self.sources.get(key) {
            Some(source) => source.snapshot_keys.is_none(),
            None => false,
        };
        if unfinished {
            self.drop_source(key);
        }
    }

    /// Prepares a range to be taken over.
    pub fn prepare_destination_range(&mut self, range: &RangeSpec) -> (r: Result<(), Status>)
        requires
            old(self).wf(),
        ensures
            final(self).wf(),
            final(self).dedup_peak_bytes == old(self).dedup_peak_bytes,
            refused(r) == old(self)@.destination_fault(range@),
            final(self)@ == if r is Ok && !old(self)@.destinations.contains_key(range@.key()) {
                NodeView {
                    destinations: old(self)@.destinations.insert(
                        range@.key(),
                        fresh_destination(range@),
                    ),
                    ..old(self)@
                }
            } else {
                old(self)@
            },
    {
        let ghost start = *self;
        if !same_text(range.destination_node_id.as_str(), self.node_id.as_str()) {
            return Err(
                Status::new(Code::FailedPrecondition, "this node is not the range destination"),
            );
        }
        let key = range.key();
        if let Some(existing) = self.destinations.get(&key) {
            if !existing.range.same(range) {
                return Err(
                    Status::new(
                        Code::FailedPrecondition,
                        "destination range retry conflicts with the prepared specification",
                    ),
                );
            }
            return Ok(());
        }
        let destination = DestinationMigration {
            range: range.duplicate(),
            records: SortedMap::new(),
            dedup: ExpiringTable::new(),
            watermark: 0,
            committed: false,
            writes_activated: false,
        };
        proof {
            assert(destination@.records =~= Map::empty());
            assert(destination@.dedup =~= Map::empty());
            assert(destination@ =~= fresh_destination(range@));
        }
        let _ = self.destinations.insert(key, destination);
        proof {
            let n = NodeView {
                destinations: start@.destinations.insert(
                    range@.key(),
                    fresh_destination(range@),
                ),
                ..start@
            };
            assert(self@.destinations =~= n.destinations);
            assert(self@ =~= n);
        }
        Ok(())
    }

    /// Stops writes to a range that is handed over, and tells where its journal ends.
    pub fn pause_range_writes(&mut self, control: &RangeControl) -> (r: Result<u64, Status>)
        requires
            old(self).wf(),
        ensures
            final(self).wf(),
            final(self).dedup_peak_bytes == old(self).dedup_peak_bytes,
            r is Ok == old(self)@.sources.contains_key(control@),
            r matches Err(e) ==> e@ == no_source() && final(self)@ == old(self)@,
            r matches Ok(watermark) ==> watermark == old(self)@.sources[control@].watermark
                && final(self)@ == (NodeView {
                sources: old(self)@.sources.insert(
                    control@,
                    SourceView { writes_paused: true, ..old(self)@.sources[control@] },
                ),
                ..old(self)@
            }),
    {
        let ghost start = *self;
        let (i, found) = self.sources.locate(&control.key());
        if !found {
            return Err(missing_source());
        }
        let ghost s = self.sources.sequence();
        let source = self.sources.value_mut_at(i);
        source.writes_paused = true;
        let watermark = source.watermark;
        proof {
            lemma_total_update(
                s,
                i as int,
                self.sources.sequence()[i as int],
                journal_measure(),
            );
            let n = NodeView {
                sources: start@.sources.insert(
                    control@,
                    SourceView { writes_paused: true, ..start@.sources[control@] },
                ),
                ..start@
            };
            assert(self@.sources =~= n.sources);
            assert(self@ =~= n);
        }
        Ok(watermark)
    }

    /// Lets writes into a range that was taken over.
    pub fn activate_destination_range(&mut self, control: &RangeControl) -> (r: Result<(), Status>)
        requires
            old(self).wf(),
        ensures
            final(self).wf(),
            final(self).dedup_peak_bytes == old(self).dedup_peak_bytes,
            refused(r) == if !old(self)@.destinations.contains_key(control@) {
                Some(no_destination())
            } else if !old(self)@.destinations[control@].committed {
                Some(refusal(Code::FailedPrecondition, "destination range is not committed"@))
            } else {
                None
            },
            final(self)@ == if r is Ok {
                NodeView {
                    destinations: old(self)@.destinations.insert(
                        control@,
                        DestinationView {
                            writes_activated: true,
                            ..old(self)@.destinations[control@]
                        },
                    ),
                    ..old(self)@
                }
            } else {
                old(self)@
            },
    {
        let ghost start = *self;
        let (i, found) = self.destinations.locate(&control.key());
        if !found {
            return Err(missing_destination());
        }
        if !self.destinations.value_at(i).committed {
            return Err(Status::new(Code::FailedPrecondition, "destination range is not committed"));
        }
        let destination = self.destinations.value_mut_at(i);
        destination.writes_activated = true;
        proof {
            let n = NodeView {
                destinations: start@.destinations.insert(
                    control@,
                    DestinationView { writes_activated: true, ..start@.destinations[control@] },
                ),
                ..start@
            };
            assert(self@.destinations =~= n.destinations);
            assert(self@ =~= n);
        }
        Ok(())
    }

    /// Drops a range wherever it is prepared.
    pub fn abort_range_migration(&mut self, control: &RangeControl)
        requires
            old(self).wf(),
        ensures
            final(self).wf(),
            final(self).dedup_peak_bytes == old(self).dedup_peak_bytes,
            final(self)@ == (NodeView {
                sources: old(self)@.sources.remove(control@),
                destinations: old(self)@.destinations.remove(control@),
                ..old(self)@
            }),
    {
        let ghost start = *self;
        let key = control.key();
        self.drop_source(&key);
        let _ = self.destinations.remove(&key);
        proof {
            assert(self@.destinations =~= start@.destinations.remove(control@));
            assert(self@ =~= NodeView {
                sources: start@.sources.remove(control@),
                destinations: start@.destinations.remove(control@),
                ..start@
            });
        }
    }
}

/// Whether a record stays on `node` after it handed the range over: it is outside, or the
/// node still holds a copy by placement.
pub open spec fn stays(t: SnapshotView, range: SpecView, node: Seq<char>) -> spec_fn(
    Seq<u8>,
    RecordView,
) -> bool {
    |k: Seq<u8>, v: RecordView|
        !range.covers(t.key_token(k)) || t.replicas(t.key_token(k)).contains(node)
}

/// The records of a range.
pub open spec fn within(t: SnapshotView, range: SpecView) -> spec_fn(Seq<u8>, RecordView) -> bool {
    |k: Seq<u8>, v: RecordView| range.covers(t.key_token(k))
}

/// The beginning of the names of changes that repair copies.
pub open spec fn is_repair(change_id: Seq<char>) -> bool {
    change_id.len() >= 7 && change_id.subrange(0, 7) == "repair-"@
}

/// Tells whether a change repairs copies.
pub fn is_repair_change(change_id: &str) -> (r: bool)
    ensures
        r == is_repair(change_id@),
{
    proof {
        reveal_strlit("repair-");
    }
    if change_id.unicode_len() < 7 {
        return false;
    }
    let prefix = change_id.substring_char(0, 7);
    same_text(prefix, "repair-")
}

/// The ranges that do not repair copies.
pub open spec fn not_repairs<W>() -> spec_fn((Seq<char>, Seq<char>), W) -> bool {
    |k: (Seq<char>, Seq<char>), v: W| !is_repair(k.0)
}

impl NodeView {
    /// The node after a range was handed over.
    pub open spec fn cleaned(self, key: (Seq<char>, Seq<char>)) -> NodeView {
        if self.sources.contains_key(key) {
            NodeView {
                records: kept(
                    self.records,
                    stays(self.topology, self.sources[key].range, self.node_id),
                ),
                sources: self.sources.remove(key),
                ..self
            }
        } else {
            self
        }
    }

    /// The node without ranges that repair copies.
    pub open spec fn without_repairs(self) -> NodeView {
        NodeView {
            sources: kept(self.sources, not_repairs::<SourceView>()),
            destinations: kept(self.destinations, not_repairs::<DestinationView>()),
            ..self
        }
    }
}

impl DataNode {
    /// Forgets the records of a range that was handed over, but for those of which this node
    /// holds a copy by placement.
    pub fn cleanup_source_range(&mut self, control: &RangeControl)
        requires
            old(self).wf(),
        ensures
            final(self).wf(),
            final(self).dedup_peak_bytes == old(self).dedup_peak_bytes,
            final(self)@ == old(self)@.cleaned(control@),
    {
        let ghost start = *self;
        let key = control.key();
        let range = match self.sources.get(&key) {
            Some(source) => source.range.duplicate(),
            None => {
                return;
            },
        };
        let topology = &self.topology;
        let node_id = &self.node_id;
        let ghost t = topology@;
        let ghost spec = range@;
        let ghost me = node_id@;
        let ghost before = self.records;
        let ghost p = |k: Seq<u8>, v: Record|
            !spec.covers(t.key_token(k)) || t.replicas(t.key_token(k)).contains(me);
        let keep = |k: &Vec<u8>, v: &Record| -> (b: bool)
            requires
                topology@.placeable(),
            ensures
                b == (!range@.covers(topology@.key_token(k@)) || topology@.replicas(
                    topology@.key_token(k@),
                ).contains(node_id@)),
        {
            let token = topology.key_token(k.as_slice());
            if !range.contains(token) {
                return true;
            }
            match topology.replica_node_ids_for_token(token) {
                Ok(replicas) => strs_have(&replicas, node_id.as_str()),
                Err(_) => true,
            }
        };
        self.records.retain(keep, Ghost(p));
        proof {
            lemma_shown_kept(before, self.records, p, stays(t, spec, me));
        }
        self.drop_source(&key);
        proof {
            assert(self@ =~= start@.cleaned(control@));
        }
    }

    /// The records of a range.
    fn records_within(&self, range: &RangeSpec) -> (r: RecordMap)
        ensures
            shown(r) == kept(self@.records, within(self@.topology, range@)),
    {
        self.records.expose();
        let ghost s = self.records.sequence();
        let ghost t = self@.topology;
        let ghost spec = range@;
        let mut r: RecordMap = SortedMap::new();
        let mut i: usize = 0;
        while i < self.records.len()
            invariant
                s == self.records.sequence(),
                crate::ordmap::unique_entries(s),
                t == self@.topology,
                spec == range@,
                i <= s.len(),
                forall|j: int|
                    0 <= j < i && spec.covers(t.key_token((#[trigger] s[j]).0)) ==> shown(
                        r,
                    ).contains_key(s[j].0) && shown(r)[s[j].0] == s[j].1@,
                forall|k: Seq<u8>| #[trigger]
                    shown(r).contains_key(k) ==> self@.records.contains_key(k) && shown(r)[k]
                        == self@.records[k] && spec.covers(t.key_token(k)),
            decreases s.len() - i,
        {
            let key = self.records.key_at(i);
            proof {
                lemma_entry(s, i as int);
            }
            if range.contains(self.topology.key_token(key.as_slice())) {
                let copied = copy_bytes(key.as_slice());
                let record = self.records.value_at(i).duplicate();
                let ghost r0 = shown(r);
                let ghost held = record@;
                let _ = r.insert(copied, record);
                proof {
                    assert(shown(r) =~= r0.insert(s[i as int].0, held));
                    assert(self@.records.contains_key(s[i as int].0));
                    assert(self@.records[s[i as int].0] == held);
                    assert forall|j: int|
                        0 <= j < i + 1 && spec.covers(
                            t.key_token((#[trigger] s[j]).0),
                        ) implies shown(r).contains_key(s[j].0) && shown(r)[s[j].0] == s[j].1@ by {
                        lemma_entry(s, j);
                    }
                }
            }
            i = i + 1;
        }
        proof {
            let k0 = kept(self@.records, within(t, spec));
            assert forall|k: Seq<u8>| #[trigger] k0.contains_key(k) implies shown(r).contains_key(
                k,
            ) && shown(r)[k] == k0[k] by {
                let j = entry_index(s, k);
                lemma_entry(s, j);
            }
            assert(shown(r) =~= k0);
        }
        r
    }

    /// Sums up the records of a range that is handed over.
    pub fn source_range_digest(&self, control: &RangeControl) -> (r: Result<RangeDigest, Status>)
        ensures
            r is Ok == self@.sources.contains_key(control@),
            r matches Err(e) ==> e@ == no_source(),
            r matches Ok(d) ==> {
                let s = self@.sources[control@];
                let records = kept(self@.records, within(self@.topology, s.range));
                &&& d.digest@ == records_digest(records)
                &&& d.record_count == listing_of::<Vec<u8>, RecordView>(records).len()
                &&& d.changelog_watermark == s.watermark
            },
    {
        let key = control.key();
        match self.sources.get(&key) {
            Some(source) => {
                let records = self.records_within(&source.range);
                Ok(range_digest(&records, source.watermark))
            },
            None => Err(missing_source()),
        }
    }

    /// Sums up the records of a range that is taken over.
    pub fn destination_range_digest(&self, control: &RangeControl) -> (r: Result<
        RangeDigest,
        Status,
    >)
        ensures
            r is Ok == self@.destinations.contains_key(control@),
            r matches Err(e) ==> e@ == no_destination(),
            r matches Ok(d) ==> {
                let t = self@.destinations[control@];
                &&& d.digest@ == records_digest(t.records)
                &&& d.record_count == listing_of::<Vec<u8>, RecordView>(t.records).len()
                &&& d.changelog_watermark == t.watermark
            },
    {
        let key = control.key();
        match self.destinations.get(&key) {
            Some(destination) => Ok(range_digest(&destination.records, destination.watermark)),
            None => Err(missing_destination()),
        }
    }

    fn drop_repair_sources(&mut self)
        requires
            old(self).wf(),
        ensures
            final(self).wf(),
            final(self).dedup_peak_bytes == old(self).dedup_peak_bytes,
            final(self)@ == (NodeView {
                sources: kept(old(self)@.sources, not_repairs::<SourceView>()),
                ..old(self)@
            }),
            final(self).receipts == old(self).receipts,
    {
        let ghost start = *self;
        let ghost before = self.sources@;
        let mut i: usize = 0;
        while i < self.sources.len()
            invariant
                self.wf(),
                start.wf(),
                before == start.sources@,
                self.receipts == start.receipts,
                self.dedup_peak_bytes == start.dedup_peak_bytes,
                self@ == (NodeView { sources: self@.sources, ..start@ }),
                i <= self.sources.sequence().len(),
                forall|k: (Seq<char>, Seq<char>)| #[trigger]
                    self.sources@.contains_key(k) ==> before.contains_key(k) && self.sources@[k]
                        == before[k],
                forall|k: (Seq<char>, Seq<char>)| #[trigger]
                    before.contains_key(k) && !self.sources@.contains_key(k) ==> is_repair(k.0),
                forall|j: int|
                    0 <= j < i ==> !is_repair((#[trigger] self.sources.sequence()[j]).0.0),
            decreases self.sources.sequence().len() - i,
        {
            self.sources.expose();
            let ghost s = self.sources.sequence();
            proof {
                lemma_entry(s, i as int);
                lemma_total_remove(s, i as int, journal_measure());
            }
            if is_repair_change(self.sources.key_at(i).0.as_str()) {
                let source = self.sources.remove_at(i);
                self.journal_bytes_total = self.journal_bytes_total - source.journal_bytes;
                proof {
                    assert forall|j: int| 0 <= j < i implies !is_repair(
                        (#[trigger] self.sources.sequence()[j]).0.0,
                    ) by {
                        assert(self.sources.sequence()[j] == s[j]);
                    }
                }
            } else {
                i = i + 1;
            }
        }
        self.sources.expose();
        proof {
            let s = self.sources.sequence();
            assert forall|k: (Seq<char>, Seq<char>)| #[trigger]
                self.sources@.contains_key(k) implies !is_repair(k.0) by {
                let j = entry_index(s, k);
                lemma_entry(s, j);
            }
            assert(self@.sources =~= kept(start@.sources, not_repairs::<SourceView>()));
        }
    }

    /// Drops the ranges that repair copies.
    pub fn clear_replica_repair_staging(&mut self)
        requires
            old(self).wf(),
        ensures
            final(self).wf(),
            final(self).dedup_peak_bytes == old(self).dedup_peak_bytes,
            final(self)@ == old(self)@.without_repairs(),
            final(self).receipts == old(self).receipts,
    {
        let ghost start = *self;
        self.drop_repair_sources();
        let ghost before = self.destinations;
        let ghost p = |k: (Seq<char>, Seq<char>), v: DestinationMigration| !is_repair(k.0);
        let keep = |k: &(String, String), v: &DestinationMigration| -> (b: bool)
            ensures
                b == !is_repair(k.id().0),
        {
            !is_repair_change(k.0.as_str())
        };
        self.destinations.retain(keep, Ghost(p));
        proof {
            lemma_shown_kept(before, self.destinations, p, not_repairs::<DestinationView>());
            assert(self@ =~= start@.without_repairs());
        }
    }

    /// Drops the ranges that repair copies under an epoch.
    pub fn abort_replica_repairs(&mut self, topology_epoch: u64) -> (r: Result<(), Status>)
        requires
            old(self).wf(),
        ensures
            final(self).wf(),
            final(self).dedup_peak_bytes == old(self).dedup_peak_bytes,
            refused(r) == if topology_epoch != old(self)@.epoch() {
                Some(
                    refusal(
                        Code::FailedPrecondition,
                        "repair cleanup epoch does not match installed topology"@,
                    ),
                )
            } else {
                None
            },
            final(self)@ == if r is Ok {
                old(self)@.without_repairs()
            } else {
                old(self)@
            },
    {
        if self.topology.epoch != topology_epoch {
            return Err(
                Status::new(
                    Code::FailedPrecondition,
                    "repair cleanup epoch does not match installed topology",
                ),
            );
        }
        self.clear_replica_repair_staging();
        Ok(())
    }
}

/// Giving up repairs leaves the ranges of topology changes as they were, and no repair behind.
pub proof fn law_repair_cleanup_spares_migrations(n: NodeView, range: (Seq<char>, Seq<char>))
    ensures
        ({
            let left = n.without_repairs();
            if is_repair(range.0) {
                !left.sources.contains_key(range) && !left.destinations.contains_key(range)
            } else {
                &&& left.sources.contains_key(range) == n.sources.contains_key(range)
                &&& left.destinations.contains_key(range) == n.destinations.contains_key(range)
                &&& n.sources.contains_key(range) ==> left.sources[range] == n.sources[range]
                &&& n.destinations.contains_key(range) ==> left.destinations[range]
                    == n.destinations[range]
            }
        }),
        n.without_repairs().records == n.records,
        n.without_repairs().receipts == n.receipts,
{
}

} // verus!
