//! Expiry of receipts on a node, and what it releases.
use crate::node::{DataNode, NodeView};
use crate::ordmap::{
    ascending, entry_index, kept, lemma_entry, lemma_entry_count, lemma_listing, listing, listing_of, shown, total,
    MapKey, SortedMap,
};
use crate::receipts::{
    cost_of, live_at, remaining_window_millis, window_left, Expiring, ExpiringTable, Receipt,
    ReceiptView,
};
use crate::text::same_text;
use vstd::prelude::*;

verus! {

/// How long expiry waits between two passes over the streams of older epochs.
pub const ACK_PRUNE_INTERVAL_NANOS: u64 = 1_000_000_000;

/// Whether a receipt waits for an acknowledgement on this stream.
pub open spec fn waits_on(r: ReceiptView, stream: (u64, Seq<char>)) -> bool {
    exists|i: int|
        0 <= i < r.required_acks.len() && (#[trigger] r.required_acks[i]).epoch == stream.0
            && r.required_acks[i].node_id == stream.1
}

/// Whether some receipt waits for an acknowledgement on this stream.
pub open spec fn awaited(receipts: Map<Seq<char>, ReceiptView>, stream: (u64, Seq<char>)) -> bool {
    exists|id: Seq<char>| #[trigger] receipts.contains_key(id) && waits_on(receipts[id], stream)
}

/// The streams that are still of use: those of the epoch and those that are waited on.
pub open spec fn useful<W>(epoch: u64, receipts: Map<Seq<char>, ReceiptView>) -> spec_fn(
    (u64, Seq<char>),
    W,
) -> bool {
    |k: (u64, Seq<char>), w: W| k.0 == epoch || awaited(receipts, k)
}

impl NodeView {
    /// Every stream is one of the installed epoch.
    pub open spec fn only_current_streams(self) -> bool {
        &&& forall|k: (u64, Seq<char>)| #[trigger]
            self.ack_progress.contains_key(k) ==> k.0 == self.epoch()
        &&& forall|k: (u64, Seq<char>)| #[trigger]
            self.ack_process_instances.contains_key(k) ==> k.0 == self.epoch()
    }

    /// The node without the streams of older epochs that nobody waits on. Receipts are looked
    /// at only where there are streams of older epochs.
    pub open spec fn pruned(self) -> NodeView {
        NodeView {
            ack_progress: kept(self.ack_progress, useful::<u64>(self.epoch(), self.receipts)),
            ack_process_instances: kept(
                self.ack_process_instances,
                useful::<Seq<char>>(self.epoch(), self.receipts),
            ),
            cleanup_timing: self.cleanup_timing.counted(
                if self.only_current_streams() {
                    0
                } else {
                    self.receipts.len()
                },
            ),
            ..self
        }
    }

    /// Receipts that have not expired at `now`.
    pub open spec fn live_receipts(self, now: u64) -> Map<Seq<char>, ReceiptView> {
        kept(self.receipts, |id: Seq<char>, r: ReceiptView| r.expires_at > now)
    }

    /// Whether some receipt has expired at `now`.
    pub open spec fn has_expired(self, now: u64) -> bool {
        exists|id: Seq<char>| #[trigger]
            self.receipts.contains_key(id) && self.receipts[id].expires_at <= now
    }

    /// The node after expiry at `now`.
    pub open spec fn purged(self, now: u64) -> NodeView {
        let needs = self.ack_progress_needs_prune || self.has_expired(now);
        let rest = NodeView {
            receipts: self.live_receipts(now),
            ack_progress_needs_prune: needs,
            ..self
        };
        if needs && now >= self.next_ack_prune_at {
            NodeView {
                ack_progress_needs_prune: false,
                next_ack_prune_at: (now + ACK_PRUNE_INTERVAL_NANOS) as u64,
                ..rest.pruned()
            }
        } else {
            rest
        }
    }
}

/// Whether a receipt waits for an acknowledgement on this stream.
fn receipt_waits_on(r: &Receipt, epoch: u64, node_id: &str) -> (b: bool)
    ensures
        b == waits_on(r@, (epoch, node_id@)),
{
    let mut i: usize = 0;
    while i < r.required_acks.len()
        invariant
            i <= r.required_acks@.len(),
            forall|j: int|
                0 <= j < i ==> !((#[trigger] r@.required_acks[j]).epoch == epoch
                    && r@.required_acks[j].node_id == node_id@),
        decreases r.required_acks.len() - i,
    {
        proof {
            assert(r@.required_acks[i as int] == r.required_acks@[i as int]@);
        }
        if r.required_acks[i].epoch == epoch && same_text(
            r.required_acks[i].node_id.as_str(),
            node_id,
        ) {
            return true;
        }
        i = i + 1;
    }
    false
}

/// Whether some receipt waits for an acknowledgement on this stream.
fn stream_awaited(receipts: &ExpiringTable<Receipt>, epoch: u64, node_id: &str) -> (b: bool)
    ensures
        b == awaited(shown(receipts.entries), (epoch, node_id@)),
{
    receipts.entries.expose();
    let ghost s = receipts.entries.sequence();
    let ghost m = shown(receipts.entries);
    let mut i: usize = 0;
    while i < receipts.entries.len()
        invariant
            s == receipts.entries.sequence(),
            crate::ordmap::unique_entries(s),
            m == shown(receipts.entries),
            i <= s.len(),
            forall|j: int| 0 <= j < i ==> !waits_on((#[trigger] s[j]).1@, (epoch, node_id@)),
        decreases s.len() - i,
    {
        proof {
            lemma_entry(s, i as int);
            assert(m.contains_key(s[i as int].0));
        }
        if receipt_waits_on(receipts.entries.value_at(i), epoch, node_id) {
            return true;
        }
        i = i + 1;
    }
    proof {
        if awaited(m, (epoch, node_id@)) {
            let id = choose|id: Seq<char>| #[trigger]
                m.contains_key(id) && waits_on(m[id], (epoch, node_id@));
            let j = entry_index(s, id);
            lemma_entry(s, j);
        }
    }
    false
}

/// Keeping by what values stand for and keeping by the values agree.
pub proof fn lemma_shown_kept<K: MapKey, V: View>(
    before: SortedMap<K, V>,
    after: SortedMap<K, V>,
    p: spec_fn(K::Id, V) -> bool,
    q: spec_fn(K::Id, V::V) -> bool,
)
    requires
        after@ == kept(before@, p),
        forall|k: K::Id, v: V| #[trigger] p(k, v) == q(k, v@),
    ensures
        shown(after) == kept(shown(before), q),
{
    assert(shown(after) =~= kept(shown(before), q));
}

/// What a receipt takes.
pub open spec fn retained() -> spec_fn(ReceiptView) -> nat {
    |r: ReceiptView| r.retained_bytes as nat
}

/// What these receipts take together.
pub open spec fn spent(receipts: Map<Seq<char>, ReceiptView>) -> nat {
    total(listing_of::<String, ReceiptView>(receipts), retained())
}

proof fn lemma_spent_sequence(s: Seq<(Seq<char>, Receipt)>, l: Seq<(Seq<char>, ReceiptView)>)
    requires
        s.len() == l.len(),
        forall|i: int| 0 <= i < s.len() ==> #[trigger] l[i] == (s[i].0, s[i].1@),
    ensures
        total(s, cost_of::<Receipt>()) == total(l, retained()),
    decreases s.len(),
{
    if s.len() > 0 {
        assert(l[l.len() - 1] == (s.last().0, s.last().1@));
        lemma_spent_sequence(s.drop_last(), l.drop_last());
    }
}

/// The room that a table counts is what its receipts take.
pub proof fn lemma_spent(table: ExpiringTable<Receipt>)
    requires
        table.wf(),
        ascending::<String, Receipt>(table.entries.sequence()),
    ensures
        table.bytes == spent(shown(table.entries)),
{
    lemma_listing(table.entries);
    lemma_spent_sequence(table.entries.sequence(), listing(table.entries));
}

impl DataNode {
    /// Drops the streams of older epochs that no receipt waits on.
    ///
    /// Streams of the installed epoch always stay. Where there are no others, the receipts
    /// need not be looked at.
    pub fn prune_ack_progress(&mut self)
        requires
            old(self).wf(),
        ensures
            final(self).wf(),
            final(self).dedup_peak_bytes == old(self).dedup_peak_bytes,
            final(self)@ == old(self)@.pruned(),
            final(self).receipts == old(self).receipts,
            final(self).sources == old(self).sources,
            final(self).journal_bytes_total == old(self).journal_bytes_total,
    {
        let ghost start = *self;
        if self.has_only_current_streams() {
            self.cleanup_timing.count(0);
            proof {
                assert(self@ =~= start@.pruned());
            }
            return;
        }
        let epoch = self.topology.epoch;
        self.receipts.entries.expose();
        proof {
            lemma_entry_count(self.receipts.entries.sequence());
            assert(shown(self.receipts.entries).dom() =~= self.receipts.entries@.dom());
        }
        let scanned = self.receipts.entries.len();
        self.cleanup_timing.count(scanned);
        let ghost receipts = self@.receipts;
        let ghost progress = self.ack_progress;
        let ghost instances = self.ack_process_instances;
        let ghost p = |k: (u64, Seq<char>), w: u64| k.0 == epoch || awaited(receipts, k);
        let ghost q = |k: (u64, Seq<char>), w: String| k.0 == epoch || awaited(receipts, k);
        let table = &self.receipts;
        let keep = |k: &(u64, String), w: &u64| -> (b: bool)
            ensures
                b == (k.id().0 == epoch || awaited(shown(table.entries), k.id())),
        {
            k.0 == epoch || stream_awaited(table, k.0, k.1.as_str())
        };
        self.ack_progress.retain(keep, Ghost(p));
        let table = &self.receipts;
        let keep = |k: &(u64, String), w: &String| -> (b: bool)
            ensures
                b == (k.id().0 == epoch || awaited(shown(table.entries), k.id())),
        {
            k.0 == epoch || stream_awaited(table, k.0, k.1.as_str())
        };
        self.ack_process_instances.retain(keep, Ghost(q));
        proof {
            lemma_shown_kept(progress, self.ack_progress, p, useful::<u64>(epoch, receipts));
            lemma_shown_kept(
                instances,
                self.ack_process_instances,
                q,
                useful::<Seq<char>>(epoch, receipts),
            );
            assert(self@ =~= start@.pruned());
        }
    }

    fn has_only_current_streams(&self) -> (r: bool)
        ensures
            r == self@.only_current_streams(),
    {
        self.ack_progress.expose();
        self.ack_process_instances.expose();
        let epoch = self.topology.epoch;
        let ghost s = self.ack_progress.sequence();
        let ghost t = self.ack_process_instances.sequence();
        let mut i: usize = 0;
        while i < self.ack_progress.len()
            invariant
                s == self.ack_progress.sequence(),
                crate::ordmap::unique_entries(s),
                epoch == self.topology@.epoch,
                i <= s.len(),
                forall|j: int| 0 <= j < i ==> (#[trigger] s[j]).0.0 == epoch,
            decreases s.len() - i,
        {
            proof {
                lemma_entry(s, i as int);
            }
            if self.ack_progress.key_at(i).0 != epoch {
                proof {
                    assert(self@.ack_progress.contains_key(s[i as int].0));
                }
                return false;
            }
            i = i + 1;
        }
        let mut i: usize = 0;
        while i < self.ack_process_instances.len()
            invariant
                t == self.ack_process_instances.sequence(),
                crate::ordmap::unique_entries(t),
                epoch == self.topology@.epoch,
                i <= t.len(),
                forall|j: int| 0 <= j < i ==> (#[trigger] t[j]).0.0 == epoch,
            decreases t.len() - i,
        {
            proof {
                lemma_entry(t, i as int);
            }
            if self.ack_process_instances.key_at(i).0 != epoch {
                proof {
                    assert(self@.ack_process_instances.contains_key(t[i as int].0));
                }
                return false;
            }
            i = i + 1;
        }
        proof {
            assert forall|k: (u64, Seq<char>)| #[trigger]
                self.ack_progress@.contains_key(k) implies k.0 == epoch by {
                let j = entry_index(s, k);
                assert(s[j].0 == k);
            }
            assert forall|k: (u64, Seq<char>)| #[trigger]
                self.ack_process_instances@.contains_key(k) implies k.0 == epoch by {
                let j = entry_index(t, k);
                assert(t[j].0 == k);
            }
        }
        true
    }

    /// Drops the receipts that have expired, and from time to time the streams that they
    /// waited on.
    pub fn purge_expired_dedup(&mut self, now: u64)
        requires
            old(self).wf(),
            now + ACK_PRUNE_INTERVAL_NANOS <= u64::MAX,
        ensures
            final(self).wf(),
            final(self).dedup_peak_bytes == old(self).dedup_peak_bytes,
            final(self)@ == old(self)@.purged(now),
            final(self).receipts.bytes <= old(self).receipts.bytes,
            final(self).receipts.bytes == spent(old(self)@.purged(now).receipts),
            final(self).sources == old(self).sources,
            final(self).journal_bytes_total == old(self).journal_bytes_total,
    {
        let ghost start = *self;
        let removed = self.receipts.purge(now);
        proof {
            lemma_shown_kept(
                start.receipts.entries,
                self.receipts.entries,
                live_at::<Seq<char>, Receipt>(now),
                |id: Seq<char>, r: ReceiptView| r.expires_at > now,
            );
            assert(removed == start@.has_expired(now)) by {
                if start@.has_expired(now) {
                    let id = choose|id: Seq<char>| #[trigger]
                        start@.receipts.contains_key(id) && start@.receipts[id].expires_at <= now;
                    assert(start.receipts.entries@.contains_key(id));
                }
                if removed {
                    let id = choose|id: Seq<char>| #[trigger]
                        start.receipts.entries@.contains_key(id)
                            && start.receipts.entries@[id].expiry() <= now;
                    assert(start@.receipts.contains_key(id));
                }
            }
            assert forall|id: Seq<char>| #[trigger]
                self@.receipts.contains_key(id) implies self@.receipts[id].covered() by {
                assert(start@.receipts.contains_key(id));
            }
        }
        if removed {
            self.ack_progress_needs_prune = true;
        }
        proof {
            assert(self@ =~= NodeView {
                receipts: start@.live_receipts(now),
                ack_progress_needs_prune: start@.ack_progress_needs_prune || start@.has_expired(
                    now,
                ),
                ..start@
            });
        }
        if self.ack_progress_needs_prune && now >= self.next_ack_prune_at {
            self.prune_ack_progress();
            self.ack_progress_needs_prune = false;
            self.next_ack_prune_at = now + ACK_PRUNE_INTERVAL_NANOS;
        }
        self.receipts.entries.expose();
        proof {
            assert(self@ =~= start@.purged(now));
            lemma_spent(self.receipts);
        }
    }

    /// How long a write that finds no room for its receipt should wait.
    pub fn dedup_retry_after_millis(&self, now: u64) -> (r: u64)
        ensures
            r == self@.retry_after(now),
    {
        let first = self.receipts.first_expiry();
        proof {
            let m = self@.receipts;
            let e = self.receipts.entries@;
            if first is Some {
                let t = first->0;
                let k = choose|k: Seq<char>| #[trigger] e.contains_key(k) && e[k].expiry() == t;
                assert(m.contains_key(k));
                assert forall|id: Seq<char>| #[trigger] m.contains_key(id) implies m[id].expires_at
                    >= t by {
                    assert(e.contains_key(id));
                }
                assert(first_to_expire(m, t));
                let u = choose|u: u64| first_to_expire(m, u);
                let j = choose|j: Seq<char>| #[trigger] m.contains_key(j) && m[j].expires_at == u;
                assert(m.contains_key(j));
                assert(t == u);
            } else if exists|t: u64| first_to_expire(m, t) {
                let t = choose|t: u64| first_to_expire(m, t);
                let k = choose|k: Seq<char>| #[trigger] m.contains_key(k) && m[k].expires_at == t;
                assert(e.contains_key(k));
            }
        }
        match first {
            Some(expires_at) => {
                let left = remaining_window_millis(expires_at, now);
                if left < 1 {
                    1
                } else {
                    left
                }
            },
            None => 1,
        }
    }
}

/// `t` is when the next receipt expires.
pub open spec fn first_to_expire(receipts: Map<Seq<char>, ReceiptView>, t: u64) -> bool {
    &&& exists|id: Seq<char>| #[trigger] receipts.contains_key(id) && receipts[id].expires_at == t
    &&& forall|id: Seq<char>| #[trigger] receipts.contains_key(id) ==> receipts[id].expires_at >= t
}

impl NodeView {
    /// Milliseconds until the next receipt expires, and at least one.
    pub open spec fn retry_after(self, now: u64) -> u64 {
        if exists|t: u64| first_to_expire(self.receipts, t) {
            let left = window_left(choose|t: u64| first_to_expire(self.receipts, t), now);
            if left < 1 {
                1
            } else {
                left as u64
            }
        } else {
            1
        }
    }
}

/// Forgetting old progress never forgets an acknowledgement that a receipt still waits for.
pub proof fn law_awaited_progress_is_kept(n: NodeView, id: Seq<char>, i: int)
    requires
        n.receipts.contains_key(id),
        0 <= i < n.receipts[id].required_acks.len(),
    ensures
        ({
            let ack = n.receipts[id].required_acks[i];
            let stream = (ack.epoch, ack.node_id);
            &&& n.pruned().ack_progress.contains_key(stream) == n.ack_progress.contains_key(stream)
            &&& n.ack_progress.contains_key(stream) ==> n.pruned().ack_progress[stream]
                == n.ack_progress[stream]
        }),
{
}

/// Receipts that have expired are forgotten, and no others.
pub proof fn law_only_expired_receipts_are_forgotten(n: NodeView, now: u64, id: Seq<char>)
    ensures
        n.purged(now).receipts.contains_key(id) == (n.receipts.contains_key(id)
            && n.receipts[id].expires_at > now),
        n.purged(now).receipts.contains_key(id) ==> n.purged(now).receipts[id] == n.receipts[id],
{
}

} // verus!
