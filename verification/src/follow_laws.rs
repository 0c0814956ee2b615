//! What a follower takes from its owner, and what the owner takes for an acknowledgement.
use crate::errors::Code;
use crate::node::{NodeLimits, NodeView};
use crate::node_acks::{judged, still_owed, Delivery, DeliveryReply};
use crate::node_follow::{entry_fault, entry_print};
use crate::node_receipts::{first_to_expire, retained, spent};
use crate::node_streams::{opened, EntryView};
use crate::order::Position;
use crate::ordmap::{
    entry_map, lemma_ascending_unique, lemma_listing_of, lemma_listing_unique, lemma_remove_entry,
    lemma_total_remove, listing_of,
};
use crate::receipts::{acks_cost, mutation_print, window_left, AckView, ReceiptView};
use crate::records::{version_position, RecordView};
use crate::text::byte_count;
use crate::topology_laws::law_replica_count;
use vstd::prelude::*;

verus! {

/// An entry has a number, an id of 1 to 128 bytes, a key and a value within the limits, no value if
/// it deletes, and a version of the owner and epoch that it comes from.
pub open spec fn fitting_entry(limits: NodeLimits, e: EntryView) -> bool {
    &&& e.stream_sequence >= 1
    &&& e.mutation_id.len() > 0
    &&& byte_count(e.mutation_id) <= 128
    &&& 1 <= e.key.len() <= limits.max_key_bytes
    &&& e.value.len() <= limits.max_value_bytes
    &&& e.deleted ==> e.value.len() == 0
    &&& e.version is Some
    &&& e.version->0.topology_epoch == e.topology_epoch
    &&& e.version->0.owner_node_id == e.owner_node_id
}

/// An entry comes from the owner of its key in the present epoch to one of the key's followers.
pub open spec fn rightly_sent(n: NodeView, e: EntryView) -> bool {
    let token = n.topology.key_token(e.key);
    &&& e.topology_epoch == n.topology.epoch
    &&& n.topology.owner_id(token) == e.owner_node_id
    &&& exists|i: int|
        1 <= i < n.topology.replicas(token).len() && #[trigger] n.topology.replicas(token)[i]
            == n.node_id
}

/// An entry passes exactly if it fits.
pub proof fn law_fitting_entries_pass(limits: NodeLimits, e: EntryView)
    ensures
        entry_fault(limits, e) is None <==> fitting_entry(limits, e),
{
}

/// An entry has authority exactly if it was rightly sent.
pub proof fn law_owners_send_to_followers(n: NodeView, e: EntryView)
    requires
        n.topology.sound(),
    ensures
        n.authority_fault(e) is None <==> rightly_sent(n, e),
{
    let token = n.topology.key_token(e.key);
    let r = n.topology.replicas(token);
    law_replica_count(n.topology, token);
    let f = r.subrange(1, r.len() as int);
    if f.contains(n.node_id) {
        let k = choose|k: int| 0 <= k < f.len() && f[k] == n.node_id;
        assert(r[k + 1] == n.node_id);
    }
    if exists|i: int| 1 <= i < r.len() && #[trigger] r[i] == n.node_id {
        let i = choose|i: int| 1 <= i < r.len() && #[trigger] r[i] == n.node_id;
        assert(f[i - 1] == n.node_id);
    }
}

/// How far a stream has come, if it was begun.
pub open spec fn reached(n: NodeView, e: EntryView) -> u64 {
    let k = (e.topology_epoch, e.owner_node_id);
    if n.follower_streams.contains_key(k) {
        n.follower_streams[k].applied_sequence
    } else {
        0
    }
}

/// A follower takes exactly the next entry of a stream, if that was rightly sent, its owner has
/// counted on, and it can be remembered; and it confirms what it has taken before or what a
/// checkpoint held.
pub proof fn law_next_entries_are_taken(n: NodeView, e: EntryView, now: u64)
    requires
        n.topology.sound(),
    ensures
        ({
            let (r, after) = n.replicated(e, now);
            let k = (e.topology_epoch, e.owner_node_id);
            let begun = n.follower_streams.contains_key(k);
            let last = if begun {
                n.follower_streams[k].last_owner_sequence
            } else {
                0
            };
            let noted = begun && n.follower_streams[k].fingerprints.contains_key(e.stream_sequence);
            let next = e.stream_sequence == reached(n, e) + 1;
            let room = spent(n.live_receipts(now)) + byte_count(e.mutation_id) + e.key.len()
                + byte_count(e.owner_node_id) + 288 <= n.limits.max_dedup_bytes;
            let fresh = !(n.receipts.contains_key(e.mutation_id)
                && n.receipts[e.mutation_id].expires_at > now);
            let again = e.stream_sequence <= reached(n, e) && if noted {
                n.follower_streams[k].fingerprints[e.stream_sequence] == entry_print(e)
            } else {
                e.stream_sequence <= n.follower_streams[k].checkpoint_sequence
            };
            &&& r is Ok <==> {
                &&& fitting_entry(n.limits, e)
                &&& rightly_sent(n, e)
                &&& again || (next && e.version->0.owner_sequence > last && fresh && room)
            }
            &&& r is Ok && next ==> r->Ok_0 == e.stream_sequence
            &&& r is Ok && again ==> r->Ok_0 == reached(n, e) && after.records == n.records
                && after.receipts == n.receipts
            &&& r is Err ==> after.records == n.records && reached(after, e) == reached(n, e)
        }),
{
    law_fitting_entries_pass(n.limits, e);
    law_owners_send_to_followers(n, e);
    let p = n.with_stream(e).purged(now);
    assert(n.with_stream(e).live_receipts(now) == n.live_receipts(now));
    assert(p.receipts == n.live_receipts(now));
}

/// A taken entry is kept: its record unless a newer one is there, its number, and a receipt for a
/// minute, so that a retry gets its answer also here.
pub proof fn law_taken_entries_are_kept(n: NodeView, e: EntryView, now: u64)
    requires
        n.replicated(e, now).0 is Ok,
        e.stream_sequence == reached(n, e) + 1,
        now + 60_000_000_000 <= u64::MAX,
    ensures
        ({
            let after = n.replicated(e, now).1;
            let k = (e.topology_epoch, e.owner_node_id);
            let record = RecordView { value: e.value, version: e.version->0, deleted: e.deleted };
            let newer = !n.records.contains_key(e.key) || version_position(
                e.version->0,
                n.records[e.key].version,
            ) == Position::After;
            &&& after.records == if newer {
                n.records.insert(e.key, record)
            } else {
                n.records
            }
            &&& after.follower_streams.contains_key(k)
            &&& after.follower_streams[k].applied_sequence == e.stream_sequence
            &&& after.follower_streams[k].last_owner_sequence == e.version->0.owner_sequence
            &&& after.follower_streams[k].fingerprints.contains_key(e.stream_sequence)
            &&& after.follower_streams[k].fingerprints[e.stream_sequence] == entry_print(e)
            &&& after.receipts.contains_key(e.mutation_id)
            &&& after.receipts[e.mutation_id].key == e.key
            &&& after.receipts[e.mutation_id].version == e.version->0
            &&& after.receipts[e.mutation_id].deleted == e.deleted
            &&& after.receipts[e.mutation_id].fingerprint == mutation_print(
                e.key,
                e.value,
                e.deleted,
            )
            &&& after.receipts[e.mutation_id].expires_at == now + 60_000_000_000
            &&& after.receipts[e.mutation_id].required_acks.len() == 0
        }),
{
}

/// A delivery is acknowledged exactly by a process that names itself and has applied it; it is tried
/// again exactly where the failure may pass, and the stream is given up otherwise.
pub proof fn law_deliveries_are_judged(
    instance: String,
    applied: u64,
    code: Code,
    stream_sequence: u64,
)
    ensures
        judged(
            DeliveryReply::Applied {
                process_instance_id: instance,
                applied_stream_sequence: applied,
            },
            stream_sequence,
        ) == if instance@.len() > 0 && applied >= stream_sequence {
            Delivery::Acknowledged
        } else {
            Delivery::Failed
        },
        judged(DeliveryReply::TimedOut, stream_sequence) == Delivery::Retry,
        judged(DeliveryReply::Refused(code), stream_sequence) == Delivery::Retry <==> code
            == Code::Aborted || code == Code::Cancelled || code == Code::Unknown || code
            == Code::DeadlineExceeded || code == Code::ResourceExhausted || code
            == Code::Unavailable,
        judged(DeliveryReply::Refused(code), stream_sequence) != Delivery::Acknowledged,
{
}

/// What an acknowledgement covers is not owed any more, and everything behind it still is.
pub proof fn law_acknowledged_entries_are_not_owed(
    queue: Seq<(u64, u64)>,
    applied: u64,
    x: (u64, u64),
)
    requires
        forall|i: int, j: int|
            0 <= i < j < queue.len() ==> (#[trigger] queue[i]).0 < (#[trigger] queue[j]).0,
    ensures
        still_owed(queue, applied).contains(x) <==> queue.contains(x) && x.0 > applied,
    decreases queue.len(),
{
    if queue.len() > 0 && queue[0].0 <= applied {
        let rest = queue.subrange(1, queue.len() as int);
        law_acknowledged_entries_are_not_owed(rest, applied, x);
        if queue.contains(x) && x.0 > applied {
            let i = choose|i: int| 0 <= i < queue.len() && queue[i] == x;
            assert(rest[i - 1] == x);
        }
        if rest.contains(x) {
            let i = choose|i: int| 0 <= i < rest.len() && rest[i] == x;
            assert(queue[i + 1] == x);
        }
    } else if queue.contains(x) {
        let i = choose|i: int| 0 <= i < queue.len() && queue[i] == x;
        if i > 0 {
            assert(queue[0].0 < queue[i].0);
        }
    }
}

/// An acknowledgement is noted with the process that gave it. Progress goes forward, and starts over
/// only with another process; a stream that is not open gets none. Other streams stay.
pub proof fn law_acknowledgements_are_noted(
    n: NodeView,
    stream: (u64, Seq<char>),
    instance: Seq<char>,
    applied: u64,
    other: (u64, Seq<char>),
)
    requires
        other != stream,
    ensures
        ({
            let after = n.heard(stream, instance, applied);
            let same = n.ack_process_instances.contains_key(stream)
                && n.ack_process_instances[stream] == instance;
            &&& after.ack_process_instances == n.ack_process_instances.insert(stream, instance)
            &&& after.ack_progress.contains_key(stream) == n.ack_progress.contains_key(stream)
            &&& n.ack_progress.contains_key(stream) && (!same || applied >= n.ack_progress[stream])
                ==> after.ack_progress[stream] == applied
            &&& n.ack_progress.contains_key(stream) && same && applied < n.ack_progress[stream]
                ==> after.ack_progress[stream] == n.ack_progress[stream]
            &&& after.ack_progress.contains_key(other) == n.ack_progress.contains_key(other)
            &&& n.ack_progress.contains_key(other) ==> after.ack_progress[other]
                == n.ack_progress[other]
            &&& n.owner_stream_unacked.contains_key(other) ==> after.owner_stream_unacked[other]
                == n.owner_stream_unacked[other]
            &&& after.records == n.records
            &&& after.receipts == n.receipts
            &&& after.owner_stream_sequences == n.owner_stream_sequences
        }),
{
}

/// An acknowledgement is in: the stream came that far, by the process that is admitted.
pub open spec fn arrived(n: NodeView, ack: AckView) -> bool {
    let stream = (ack.epoch, ack.node_id);
    &&& n.ack_progress.contains_key(stream)
    &&& n.ack_progress[stream] >= ack.sequence
    &&& n.admitted_followers.contains_key(ack.node_id)
    &&& n.ack_process_instances.contains_key(stream)
    &&& n.ack_process_instances[stream] == n.admitted_followers[ack.node_id]
}

/// A write is answered with success exactly when all its acknowledgements are in and the owner still
/// has its epoch and its lease. It waits exactly while some are missing and may come, and its outcome
/// is uncertain otherwise.
pub proof fn law_acknowledged_writes_are_answered(
    n: NodeView,
    acks: Seq<AckView>,
    epoch: u64,
    waited_out: bool,
    now: u64,
)
    ensures
        ({
            let r = n.ack_answer(acks, epoch, waited_out, now);
            let all = forall|i: int| 0 <= i < acks.len() ==> arrived(n, #[trigger] acks[i]);
            let open = forall|i: int|
                0 <= i < acks.len() ==> n.ack_progress.contains_key(
                    ((#[trigger] acks[i]).epoch, acks[i].node_id),
                );
            let holds = n.topology.epoch == epoch && n.lease is Some && (n.lease->0).0 == epoch
                && now < (n.lease->0).1;
            &&& r == Some(None::<crate::errors::OperationErrorView>) <==> all && holds
            &&& r is None <==> open && !all && !waited_out
        }),
{
    if n.ack_state(acks) is Lost {
        let i = choose|i: int|
            0 <= i < acks.len() && !n.ack_progress.contains_key(
                ((#[trigger] acks[i]).epoch, acks[i].node_id),
            );
        assert(!arrived(n, acks[i]));
    }
    assert forall|i: int| 0 <= i < acks.len() implies arrived(n, #[trigger] acks[i]) == n.ack_in(
        acks[i],
    ) by {}
    if n.ack_state(acks) is Complete {
        assert forall|i: int| 0 <= i < acks.len() implies arrived(n, #[trigger] acks[i]) by {
            assert(n.ack_in(acks[i]));
        }
    }
    if n.ack_state(acks) is Waiting {
        let i = choose|i: int| 0 <= i < acks.len() && !n.ack_in(#[trigger] acks[i]);
        assert(!arrived(n, acks[i]));
    }
}

/// A write that is fully acknowledged is remembered without what it waited for, and takes less room
/// by that; otherwise its receipt stays as it is.
pub proof fn law_settled_writes_take_less_room(
    n: NodeView,
    id: Seq<char>,
    version: crate::records::VersionView,
)
    requires
        n.receipts.contains_key(id),
        acks_cost(crate::receipts::ack_nodes(n.receipts[id].required_acks))
            <= n.receipts[id].retained_bytes,
    ensures
        ({
            let before = n.receipts[id];
            let after = n.acknowledged(id, version).receipts[id];
            &&& after.key == before.key
            &&& after.fingerprint == before.fingerprint
            &&& after.version == before.version
            &&& after.deleted == before.deleted
            &&& after.expires_at == before.expires_at
            &&& before.version == version ==> after.required_acks.len() == 0
                && after.retained_bytes + acks_cost(
                crate::receipts::ack_nodes(before.required_acks),
            ) == before.retained_bytes
            &&& before.version != version ==> after == before
        }),
{
    let nodes = crate::receipts::ack_nodes(n.receipts[id].required_acks);
    if n.receipts[id].required_acks.len() == 0 {
        assert(nodes.len() == 0);
        assert(acks_cost(nodes) == 0);
    }
}

/// What is remembered adds up: one receipt more takes its own room more.
pub proof fn law_memory_adds_up(receipts: Map<Seq<char>, ReceiptView>, id: Seq<char>, r: ReceiptView)
    requires
        receipts.dom().finite(),
        !receipts.contains_key(id),
    ensures
        spent(receipts.insert(id, r)) == spent(receipts) + r.retained_bytes,
        receipts.dom().len() == 0 ==> spent(receipts) == 0,
{
    let more = receipts.insert(id, r);
    assert(more.dom() =~= receipts.dom().insert(id));
    lemma_listing_of::<String, ReceiptView>(receipts);
    lemma_listing_of::<String, ReceiptView>(more);
    let s = listing_of::<String, ReceiptView>(receipts);
    let t = listing_of::<String, ReceiptView>(more);
    lemma_ascending_unique::<String, ReceiptView>(t);
    assert(more.contains_key(id));
    assert(t.contains((id, more[id])));
    let i = choose|i: int| 0 <= i < t.len() && t[i] == (id, more[id]);
    lemma_remove_entry::<String, ReceiptView>(t, i);
    assert(entry_map(t.remove(i)) =~= receipts);
    lemma_listing_unique::<String, ReceiptView>(s, t.remove(i));
    lemma_total_remove(t, i, retained());
    if receipts.dom().len() == 0 {
        assert(receipts.dom() =~= Set::empty());
        if s.len() > 0 {
            assert(receipts.contains_key(s[0].0));
        }
        assert(s.len() == 0);
    }
}

/// Each follower that is waited for takes the room of its name and 144 bytes.
pub proof fn law_awaited_followers_take_room(nodes: Seq<Seq<char>>, node: Seq<char>)
    ensures
        acks_cost(nodes.push(node)) == acks_cost(nodes) + byte_count(node) + 144,
        acks_cost(Seq::<Seq<char>>::empty()) == 0,
{
    assert(nodes.push(node).drop_last() =~= nodes);
}

/// A write opens the streams of its followers: each has progress from then on, from nothing if it had
/// none. Other streams stay.
pub proof fn law_streams_are_opened(
    progress: Map<(u64, Seq<char>), u64>,
    epoch: u64,
    followers: Seq<Seq<char>>,
    n: nat,
    stream: (u64, Seq<char>),
)
    requires
        n <= followers.len(),
    ensures
        ({
            let after = opened(progress, epoch, followers, n);
            let wanted = stream.0 == epoch && followers.take(n as int).contains(stream.1);
            &&& after.contains_key(stream) <==> progress.contains_key(stream) || wanted
            &&& progress.contains_key(stream) ==> after[stream] == progress[stream]
            &&& !progress.contains_key(stream) && wanted ==> after[stream] == 0
        }),
    decreases n,
{
    if n > 0 {
        law_streams_are_opened(progress, epoch, followers, (n - 1) as nat, stream);
        let head = followers.take(n - 1);
        let all = followers.take(n as int);
        assert(all[n - 1] == followers[n - 1]);
        if head.contains(stream.1) {
            let i = choose|i: int| 0 <= i < head.len() && head[i] == stream.1;
            assert(all[i] == stream.1);
        }
        if all.contains(stream.1) {
            let i = choose|i: int| 0 <= i < all.len() && all[i] == stream.1;
            if i < n - 1 {
                assert(head[i] == stream.1);
            }
        }
    }
}

/// A write that finds no room is told to come back when the first receipt runs out, and not at once.
pub proof fn law_room_comes_with_the_first_expiry(n: NodeView, id: Seq<char>, now: u64)
    requires
        n.receipts.contains_key(id),
        forall|other: Seq<char>| #[trigger]
            n.receipts.contains_key(other) ==> n.receipts[other].expires_at
                >= n.receipts[id].expires_at,
    ensures
        n.retry_after(now) >= 1,
        n.receipts[id].expires_at > now ==> n.retry_after(now) == window_left(
            n.receipts[id].expires_at,
            now,
        ),
{
    let t = n.receipts[id].expires_at;
    assert(first_to_expire(n.receipts, t));
    let u = choose|u: u64| first_to_expire(n.receipts, u);
    assert(first_to_expire(n.receipts, u));
    let other = choose|other: Seq<char>| #[trigger]
        n.receipts.contains_key(other) && n.receipts[other].expires_at == u;
    assert(n.receipts[other].expires_at >= t);
    assert(u == t);
}

/// A follower counts exactly the entries that it could not remember: the next ones, rightly sent, for
/// which there was no room.
pub proof fn law_forgotten_entries_are_counted(n: NodeView, e: EntryView, now: u64)
    requires
        n.topology.sound(),
        n.follower_dedup_rejections < u64::MAX,
    ensures
        ({
            let (r, after) = n.replicated(e, now);
            let k = (e.topology_epoch, e.owner_node_id);
            let last = if n.follower_streams.contains_key(k) {
                n.follower_streams[k].last_owner_sequence
            } else {
                0
            };
            let next = fitting_entry(n.limits, e) && rightly_sent(n, e) && e.stream_sequence
                == reached(n, e) + 1 && e.version->0.owner_sequence > last;
            let live = n.receipts.contains_key(e.mutation_id)
                && n.receipts[e.mutation_id].expires_at > now;
            let full = spent(n.live_receipts(now)) + byte_count(e.mutation_id) + e.key.len()
                + byte_count(e.owner_node_id) + 288 > n.limits.max_dedup_bytes;
            after.follower_dedup_rejections == n.follower_dedup_rejections + if next && !live
                && full {
                1int
            } else {
                0int
            }
        }),
{
    law_fitting_entries_pass(n.limits, e);
    law_owners_send_to_followers(n, e);
    let p = n.with_stream(e).purged(now);
    assert(n.with_stream(e).live_receipts(now) == n.live_receipts(now));
    assert(p.receipts == n.live_receipts(now));
}

} // verus!
