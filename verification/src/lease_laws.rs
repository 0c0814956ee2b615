//! What holds between the leases that a coordinator grants and those that nodes hold.
use crate::coverage::GrantView;
use crate::finish::{latest_end, law_leases_run_out, lease_end};
use crate::leases::{new_grant, NODE_LEASE_DURATION_NANOS};
use crate::node::NodeView;
use crate::ordmap::{
    ascending, entry_index, entry_map, has_entry, lemma_listing_unique, listing_of,
};
use crate::topology::SnapshotView;
use vstd::prelude::*;

verus! {

impl NodeView {
    /// A node takes itself to hold a lease no longer than the coordinator does, on one clock.
    pub open spec fn lease_known(self, grants: Map<Seq<char>, GrantView>, startup_at: u64) -> bool {
        self.lease matches Some((_, expires_at)) ==> expires_at <= lease_end(
            grants,
            self.node_id,
            startup_at,
        )
    }
}

/// A lease that a coordinator grants leaves every node with no more than is known of it, as long
/// as time does not go back.
pub proof fn law_grants_keep_leases_known(
    n: NodeView,
    grants: Map<Seq<char>, GrantView>,
    startup_at: u64,
    node: Seq<char>,
    process: Seq<char>,
    epoch: u64,
    granted_at: u64,
    unix_millis: u64,
)
    requires
        n.lease_known(grants, startup_at),
        granted_at + NODE_LEASE_DURATION_NANOS <= u64::MAX,
        grants.contains_key(node) ==> grants[node].expires_at <= granted_at
            + NODE_LEASE_DURATION_NANOS,
    ensures
        n.lease_known(
            grants.insert(node, new_grant(process, epoch, granted_at, unix_millis)),
            startup_at,
        ),
{
}

/// A node that counts its lease from the instant at which it asked holds it no longer than the
/// coordinator that granted it afterwards takes it to.
pub proof fn law_accepted_leases_are_known(
    n: NodeView,
    grants: Map<Seq<char>, GrantView>,
    startup_at: u64,
    epoch: u64,
    sent_at: u64,
    granted_at: u64,
)
    requires
        n.lease_known(grants, startup_at),
        sent_at <= granted_at,
        grants.contains_key(n.node_id),
        grants[n.node_id].expires_at == granted_at + NODE_LEASE_DURATION_NANOS,
    ensures
        n.with_lease(epoch, epoch, NODE_LEASE_DURATION_NANOS, sent_at).lease_known(
            grants,
            startup_at,
        ),
{
}

/// A new topology gives a node no lease that is not known.
pub proof fn law_topologies_keep_leases_known(
    n: NodeView,
    grants: Map<Seq<char>, GrantView>,
    startup_at: u64,
    t: SnapshotView,
    forget: bool,
)
    requires
        n.lease_known(grants, startup_at),
    ensures
        n.under(t, forget).lease_known(grants, startup_at),
{
}

/// From the instant on at which a failed node may be replaced, it neither answers reads nor takes
/// writes: its heirs are the only ones that serve its keys.
pub proof fn law_replaced_nodes_serve_nothing(
    n: NodeView,
    grants: Map<Seq<char>, GrantView>,
    startup_at: u64,
    now: u64,
    key: Seq<u8>,
)
    requires
        n.lease_known(grants, startup_at),
        now >= lease_end(grants, n.node_id, startup_at),
    ensures
        !n.leased(now),
        n.owner_fault(key, now) is Some,
        n.read(key, now).error is Some,
{
}

/// Once every lease has run out, no node serves anything under the topology that they were
/// granted for.
pub proof fn law_nobody_serves_without_known_leases(
    n: NodeView,
    list: Seq<(Seq<char>, GrantView)>,
    startup_at: u64,
    now: u64,
    key: Seq<u8>,
)
    requires
        ascending::<String, GrantView>(list),
        n.lease_known(entry_map(list), startup_at),
        now >= latest_end(
            listing_of::<String, GrantView>(entry_map(list)),
            (startup_at + NODE_LEASE_DURATION_NANOS) as u64,
            listing_of::<String, GrantView>(entry_map(list)).len(),
        ),
    ensures
        !n.leased(now),
        n.owner_fault(key, now) is Some,
{
    let grants = entry_map(list);
    let l = listing_of::<String, GrantView>(grants);
    lemma_listing_unique::<String, GrantView>(l, list);
    let floor = (startup_at + NODE_LEASE_DURATION_NANOS) as u64;
    if grants.contains_key(n.node_id) {
        assert(has_entry(list, n.node_id));
        law_leases_run_out(l, floor, l.len(), entry_index(list, n.node_id));
    } else if l.len() > 0 {
        law_leases_run_out(l, floor, l.len(), 0);
    }
}

} // verus!
