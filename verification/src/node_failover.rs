//! What followers keep of an owner that fails.
use crate::node::NodeView;
use crate::node_follow::standing;
use crate::node_streams::{EntryView, PreparedView};
use crate::node_write::{key_fault, recall, GetResponseView, MutationView, Recall};
use crate::order::Position;
use crate::records::version_position;
use crate::topology::SnapshotView;
use vstd::prelude::*;

verus! {

impl PreparedView {
    /// A write as this follower receives it from its owner.
    pub open spec fn entry(self, owner: NodeView, m: MutationView) -> EntryView {
        EntryView {
            topology_epoch: self.topology_epoch,
            owner_node_id: owner.node_id,
            stream_sequence: self.stream_sequence,
            key: m.key,
            value: m.value,
            deleted: m.deleted,
            version: Some(owner.next_version()),
            mutation_id: m.request_id,
        }
    }
}

impl NodeView {
    /// The node takes the write from its owner: it is the next one on its stream, and it is
    /// acknowledged.
    pub open spec fn takes(self, e: EntryView, now: u64) -> bool {
        standing(self.stream_of(e), e) is Next && self.replicated(e, now).0 is Ok
    }

    /// A write with this version is newer than what the node holds under its key.
    pub open spec fn behind(self, e: EntryView) -> bool {
        self.records.contains_key(e.key) ==> version_position(
            e.version->0,
            self.records[e.key].version,
        ) == Position::After
    }

    /// The node once it has installed a topology and got a lease in it.
    pub open spec fn leased_under(self, t: SnapshotView, expires_at: u64) -> NodeView {
        NodeView { lease: Some((t.epoch, expires_at)), ..self.under(t, true) }
    }
}

/// A follower that has acknowledged a write holds the same record as its owner, beside what it
/// held before.
pub proof fn law_acknowledged_writes_are_held(
    owner: NodeView,
    follower: NodeView,
    m: MutationView,
    p: PreparedView,
    now: u64,
)
    requires
        follower.takes(p.entry(owner, m), now),
        follower.behind(p.entry(owner, m)),
    ensures
        follower.replicated(p.entry(owner, m), now).1.records == follower.records.insert(
            m.key,
            owner.next_record(m),
        ),
{
    let e = p.entry(owner, m);
    let w = follower.with_stream(e);
    assert(w.purged(now).records == follower.records);
}

/// Another topology takes no record and no receipt away.
pub proof fn law_topologies_keep_records(n: NodeView, t: SnapshotView, forget: bool)
    ensures
        n.under(t, forget).records == n.records,
        n.under(t, forget).receipts == n.receipts,
        n.under(t, forget).limits == n.limits,
        n.under(t, forget).node_id == n.node_id,
        n.under(t, forget).topology == t,
{
}

/// An acknowledged put survives its owner: the follower serves it as soon as it owns the key in
/// the topology that follows and has a lease.
pub proof fn law_heirs_serve_acknowledged_puts(
    owner: NodeView,
    follower: NodeView,
    m: MutationView,
    p: PreparedView,
    t: SnapshotView,
    expires_at: u64,
    now: u64,
    later: u64,
)
    requires
        !m.deleted,
        key_fault(follower.limits, m.key) is None,
        follower.takes(p.entry(owner, m), now),
        follower.behind(p.entry(owner, m)),
        t.owner_id(t.key_token(m.key)) == follower.node_id,
        later < expires_at,
    ensures
        ({
            let heir = follower.replicated(p.entry(owner, m), now).1.leased_under(t, expires_at);
            heir.read(m.key, later) == (GetResponseView {
                value: m.value,
                version: Some(owner.next_version()),
                current_epoch: t.epoch,
                error: None,
            })
        }),
{
    let e = p.entry(owner, m);
    let f = follower.replicated(e, now).1;
    law_acknowledged_writes_are_held(owner, follower, m, p, now);
    law_topologies_keep_records(f, t, true);
    let w = follower.with_stream(e);
    assert(w.purged(now).limits == follower.limits);
    assert(w.purged(now).node_id == follower.node_id);
    let heir = f.leased_under(t, expires_at);
    assert(heir.owner_fault(m.key, later) is None);
}

/// A write that is tried again at the heir of its owner, under the same name, gets the answer
/// that the owner gave.
pub proof fn law_heirs_answer_retries(
    owner: NodeView,
    follower: NodeView,
    m: MutationView,
    p: PreparedView,
    t: SnapshotView,
    expires_at: u64,
    now: u64,
)
    requires
        follower.takes(p.entry(owner, m), now),
    ensures
        ({
            let heir = follower.replicated(p.entry(owner, m), now).1.leased_under(t, expires_at);
            recall(heir.receipts, m) == Recall::Known(owner.next_version(), Seq::empty())
        }),
{
    let e = p.entry(owner, m);
    let f = follower.replicated(e, now).1;
    law_topologies_keep_records(f, t, true);
    assert(f.receipts.contains_key(m.request_id));
}

} // verus!
