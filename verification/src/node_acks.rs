//! Acknowledgements of followers: what they change, and when a write has enough of them.
use crate::errors::{outcome_unknown, uncertain, Code, OperationError, OperationErrorView};
use crate::node::{DataNode, NodeView};
use crate::node_write::{recall, MutationView, Recall};
use crate::ordmap::{lemma_entry, lemma_total_one, lemma_total_update, MapKey};
use crate::receipts::{
    ack_nodes, acks_cost, cost_of, lemma_acks_cost_prefix, required_ack_entry_bytes, AckView,
    Receipt, ReceiptView, RequiredAck,
};
use crate::records::{RecordVersion, VersionView};
use crate::text::{same_text, text_len};
use crate::views::views;
use vstd::prelude::*;

verus! {

/// How far the acknowledgements of a write have come.
#[derive(Clone, Copy, Debug, Eq, PartialEq, Structural)]
pub enum AckState {
    /// All are in.
    Complete,
    /// Some are still to come.
    Waiting,
    /// Some can no longer be told.
    Lost,
}

impl NodeView {
    /// An acknowledgement is in: the stream has come that far, and it was the process that
    /// was admitted that said so.
    pub open spec fn ack_in(self, ack: AckView) -> bool {
        let stream = (ack.epoch, ack.node_id);
        &&& self.ack_progress.contains_key(stream)
        &&& self.ack_progress[stream] >= ack.sequence
        &&& self.admitted_followers.contains_key(ack.node_id)
        &&& self.ack_process_instances.contains_key(stream)
        &&& self.ack_process_instances[stream] == self.admitted_followers[ack.node_id]
    }

    /// How far these acknowledgements have come.
    pub open spec fn ack_state(self, acks: Seq<AckView>) -> AckState {
        if exists|i: int|
            0 <= i < acks.len() && !self.ack_progress.contains_key(
                ((#[trigger] acks[i]).epoch, acks[i].node_id),
            ) {
            AckState::Lost
        } else if forall|i: int| 0 <= i < acks.len() ==> self.ack_in(#[trigger] acks[i]) {
            AckState::Complete
        } else {
            AckState::Waiting
        }
    }

    /// The node still has the authority under which a write of `epoch` was taken.
    pub open spec fn authorized(self, epoch: u64, now: u64) -> bool {
        self.epoch() == epoch && self.leased(now)
    }

    /// The answer to a write once there is one.
    pub open spec fn ack_answer(
        self,
        acks: Seq<AckView>,
        epoch: u64,
        waited_out: bool,
        now: u64,
    ) -> Option<Option<OperationErrorView>> {
        match self.ack_state(acks) {
            AckState::Lost => Some(Some(uncertain(epoch))),
            AckState::Waiting => if waited_out {
                Some(Some(uncertain(epoch)))
            } else {
                None
            },
            AckState::Complete => if self.authorized(epoch, now) {
                Some(None)
            } else {
                Some(Some(uncertain(epoch)))
            },
        }
    }

    /// A receipt that waits for acknowledgements of this version.
    pub open spec fn waits_for(self, id: Seq<char>, version: VersionView) -> bool {
        self.receipts.contains_key(id) && self.receipts[id].version == version
            && self.receipts[id].required_acks.len() > 0
    }

    /// The node after all acknowledgements of a write came in.
    pub open spec fn acknowledged(self, id: Seq<char>, version: VersionView) -> NodeView {
        if self.waits_for(id, version) {
            let r = self.receipts[id];
            NodeView {
                receipts: self.receipts.insert(
                    id,
                    ReceiptView {
                        required_acks: Seq::empty(),
                        retained_bytes: (r.retained_bytes - acks_cost(
                            ack_nodes(r.required_acks),
                        )) as usize,
                        ..r
                    },
                ),
                ..self
            }
        } else {
            self
        }
    }
}

/// What waiting for these acknowledgements costs.
fn acks_bytes(acks: &Vec<RequiredAck>) -> (r: usize)
    requires
        acks_cost(ack_nodes(views(acks@))) <= usize::MAX,
    ensures
        r == acks_cost(ack_nodes(views(acks@))),
{
    let ghost nodes = ack_nodes(views(acks@));
    let mut sum: usize = 0;
    let mut i: usize = 0;
    proof {
        assert(nodes.subrange(0, 0) =~= Seq::empty());
    }
    while i < acks.len()
        invariant
            nodes == ack_nodes(views(acks@)),
            i <= acks@.len(),
            sum == acks_cost(nodes.subrange(0, i as int)),
            acks_cost(nodes) <= usize::MAX,
        decreases acks.len() - i,
    {
        proof {
            lemma_acks_cost_prefix(nodes, i + 1);
            assert(nodes.subrange(0, i + 1).drop_last() =~= nodes.subrange(0, i as int));
            assert(nodes[i as int] == acks@[i as int].node_id@);
        }
        sum = sum + required_ack_entry_bytes(text_len(acks[i].node_id.as_str()));
        i = i + 1;
    }
    proof {
        assert(nodes.subrange(0, nodes.len() as int) =~= nodes);
    }
    sum
}

impl DataNode {
    fn ack_is_in(&self, ack: &RequiredAck) -> (r: bool)
        ensures
            r == self@.ack_in(ack@),
    {
        let stream = (ack.epoch, ack.node_id.clone());
        match self.ack_progress.get(&stream) {
            Some(progress) => if *progress < ack.sequence {
                return false;
            },
            None => {
                return false;
            },
        }
        match self.admitted_followers.get(&ack.node_id) {
            Some(admitted) => match self.ack_process_instances.get(&stream) {
                Some(instance) => same_text(instance.as_str(), admitted.as_str()),
                None => false,
            },
            None => false,
        }
    }

    /// Tells how far these acknowledgements have come.
    pub fn check_required_acks(&self, acks: &Vec<RequiredAck>) -> (r: AckState)
        ensures
            r == self@.ack_state(views(acks@)),
    {
        let ghost a = views(acks@);
        let mut complete = true;
        let mut i: usize = 0;
        while i < acks.len()
            invariant
                a == views(acks@),
                i <= acks@.len(),
                forall|j: int|
                    0 <= j < i ==> self@.ack_progress.contains_key(
                        ((#[trigger] a[j]).epoch, a[j].node_id),
                    ),
                complete == (forall|j: int| 0 <= j < i ==> self@.ack_in(#[trigger] a[j])),
            decreases acks.len() - i,
        {
            proof {
                assert(a[i as int] == acks@[i as int]@);
            }
            let stream = (acks[i].epoch, acks[i].node_id.clone());
            if !self.ack_progress.contains(&stream) {
                return AckState::Lost;
            }
            if !self.ack_is_in(&acks[i]) {
                proof {
                    assert(!self@.ack_in(a[i as int]));
                }
                complete = false;
            }
            i = i + 1;
        }
        if complete {
            AckState::Complete
        } else {
            AckState::Waiting
        }
    }

    /// Frees what a receipt holds for acknowledgements that came in.
    pub fn complete_required_acks(&mut self, mutation_id: &String, version: &RecordVersion)
        requires
            old(self).wf(),
        ensures
            final(self).wf(),
            final(self).dedup_peak_bytes == old(self).dedup_peak_bytes,
            final(self)@ == old(self)@.acknowledged(mutation_id@, version@),
            old(self)@.waits_for(mutation_id@, version@) ==> final(self).receipts.bytes + acks_cost(
                ack_nodes(old(self)@.receipts[mutation_id@].required_acks),
            ) == old(self).receipts.bytes,
    {
        let ghost start = *self;
        let (i, found) = self.receipts.entries.locate(mutation_id);
        if !found {
            return;
        }
        self.receipts.entries.expose();
        let ghost s = self.receipts.entries.sequence();
        let entry = self.receipts.entries.value_at(i);
        proof {
            lemma_entry(s, i as int);
            assert(s[i as int].0 == mutation_id@);
            assert(start@.receipts.contains_key(mutation_id@));
            assert(start@.receipts[mutation_id@] == entry@);
            assert(entry@.covered());
            lemma_total_one(s, i as int, cost_of::<Receipt>());
        }
        if !entry.version.same(version) || entry.required_acks.len() == 0 {
            return;
        }
        let released = acks_bytes(&entry.required_acks);
        let held = self.receipts.entries.value_mut_at(i);
        held.required_acks = Vec::new();
        held.retained_bytes = held.retained_bytes - released;
        self.receipts.bytes = self.receipts.bytes - released;
        proof {
            let t = self.receipts.entries.sequence();
            lemma_total_update(s, i as int, t[i as int], cost_of::<Receipt>());
            assert(views(t[i as int].1.required_acks@) =~= Seq::empty());
            assert(t[i as int].1@ =~= ReceiptView {
                required_acks: Seq::empty(),
                retained_bytes: (entry@.retained_bytes - released) as usize,
                ..entry@
            });
            assert(self@.receipts =~= start@.acknowledged(mutation_id@, version@).receipts);
            assert(self@ =~= start@.acknowledged(mutation_id@, version@));
        }
    }

    /// Answers a write once its acknowledgements are in or can no longer be waited for.
    /// Nothing is answered as long as they can: then the node does not change.
    pub fn wait_required_acks(
        &mut self,
        required: &Vec<RequiredAck>,
        epoch: u64,
        mutation_id: &String,
        version: &RecordVersion,
        waited_out: bool,
        now: u64,
    ) -> (r: Option<Result<(), OperationError>>)
        requires
            old(self).wf(),
        ensures
            final(self).wf(),
            final(self).dedup_peak_bytes == old(self).dedup_peak_bytes,
            ({
                let answer = old(self)@.ack_answer(views(required@), epoch, waited_out, now);
                match r {
                    None => answer is None,
                    Some(Ok(_)) => answer == Some(None::<OperationErrorView>),
                    Some(Err(e)) => answer == Some(Some(e@)),
                }
            }),
            final(self)@ == if r matches Some(Ok(_)) {
                old(self)@.acknowledged(mutation_id@, version@)
            } else {
                old(self)@
            },
    {
        match self.check_required_acks(required) {
            AckState::Lost => {
                return Some(Err(outcome_unknown(epoch)));
            },
            AckState::Waiting => {
                if waited_out {
                    return Some(Err(outcome_unknown(epoch)));
                }
                return None;
            },
            AckState::Complete => {},
        }
        let authorized = match self.lease {
            Some((lease_epoch, expires_at)) => lease_epoch == epoch && self.topology.epoch == epoch
                && now < expires_at,
            None => false,
        };
        if !authorized {
            return Some(Err(outcome_unknown(epoch)));
        }
        self.complete_required_acks(mutation_id, version);
        Some(Ok(()))
    }
}

/// A failed delivery that may be tried again.
pub open spec fn retryable_code(code: Code) -> bool {
    code is Aborted || code is Cancelled || code is Unknown || code is DeadlineExceeded
        || code is ResourceExhausted || code is Unavailable
}

/// Tells whether a failed delivery may be tried again.
pub fn retryable_replication_status(code: Code) -> (r: bool)
    ensures
        r == retryable_code(code),
{
    match code {
        Code::Aborted => true,
        Code::Cancelled => true,
        Code::Unknown => true,
        Code::DeadlineExceeded => true,
        Code::ResourceExhausted => true,
        Code::Unavailable => true,
        _ => false,
    }
}

/// What came of sending a write to a follower.
#[derive(Debug, Eq, PartialEq)]
pub enum DeliveryReply {
    Applied { process_instance_id: String, applied_stream_sequence: u64 },
    Refused(Code),
    TimedOut,
}

/// What to do about it.
#[derive(Clone, Copy, Debug, Eq, PartialEq, Structural)]
pub enum Delivery {
    /// It is acknowledged: the next write can be sent.
    Acknowledged,
    /// It is sent again after a while.
    Retry,
    /// The stream is given up.
    Failed,
}

/// What to do about the reply to the write of this sequence.
pub open spec fn judged(reply: DeliveryReply, stream_sequence: u64) -> Delivery {
    match reply {
        DeliveryReply::Applied { process_instance_id, applied_stream_sequence } => if process_instance_id@.len()
            > 0 && applied_stream_sequence >= stream_sequence {
            Delivery::Acknowledged
        } else {
            Delivery::Failed
        },
        DeliveryReply::Refused(code) => if retryable_code(code) {
            Delivery::Retry
        } else {
            Delivery::Failed
        },
        DeliveryReply::TimedOut => Delivery::Retry,
    }
}

/// Decides what to do about the reply to the write of this sequence.
pub fn judge_delivery(reply: &DeliveryReply, stream_sequence: u64) -> (r: Delivery)
    ensures
        r == judged(*reply, stream_sequence),
{
    match reply {
        DeliveryReply::Applied { process_instance_id, applied_stream_sequence } => {
            if !process_instance_id.as_str().is_empty() && *applied_stream_sequence
                >= stream_sequence {
                Delivery::Acknowledged
            } else {
                Delivery::Failed
            }
        },
        DeliveryReply::Refused(code) => if retryable_replication_status(*code) {
            Delivery::Retry
        } else {
            Delivery::Failed
        },
        DeliveryReply::TimedOut => Delivery::Retry,
    }
}

/// The pause before the first repetition, in milliseconds.
pub const FIRST_RETRY_DELAY_MILLIS: u64 = 25;

/// The pause after one of `delay` milliseconds: twice as long, up to a second.
pub fn next_retry_delay(delay: u64) -> (r: u64)
    ensures
        r == if delay < 500 {
            2 * delay as int
        } else {
            1_000
        },
{
    if delay < 500 {
        delay * 2
    } else {
        1_000
    }
}

/// What is left of a queue after an acknowledgement up to `applied`.
pub open spec fn still_owed(queue: Seq<(u64, u64)>, applied: u64) -> Seq<(u64, u64)>
    decreases queue.len(),
{
    if queue.len() > 0 && queue[0].0 <= applied {
        still_owed(queue.subrange(1, queue.len() as int), applied)
    } else {
        queue
    }
}

fn drop_acknowledged(queue: &mut Vec<(u64, u64)>, applied: u64)
    ensures
        final(queue)@ == still_owed(old(queue)@, applied),
{
    let ghost q = queue@;
    let mut n: usize = 0;
    proof {
        assert(q.subrange(0, q.len() as int) =~= q);
    }
    while n < queue.len() && queue[n].0 <= applied
        invariant
            q == queue@,
            n <= q.len(),
            still_owed(q, applied) == still_owed(q.subrange(n as int, q.len() as int), applied),
        decreases q.len() - n,
    {
        proof {
            let s = q.subrange(n as int, q.len() as int);
            assert(s.subrange(1, s.len() as int) =~= q.subrange(n + 1, q.len() as int));
            assert(s[0] == q[n as int]);
        }
        n = n + 1;
    }
    let mut rest: Vec<(u64, u64)> = Vec::new();
    let mut i: usize = n;
    while i < queue.len()
        invariant
            q == queue@,
            n <= i <= q.len(),
            rest@ == q.subrange(n as int, i as int),
        decreases q.len() - i,
    {
        rest.push(queue[i]);
        i = i + 1;
        proof {
            assert(rest@ =~= q.subrange(n as int, i as int));
        }
    }
    proof {
        let s = q.subrange(n as int, q.len() as int);
        assert(s.len() > 0 ==> s[0] == q[n as int]);
        assert(still_owed(s, applied) == s);
    }
    *queue = rest;
}

impl NodeView {
    /// The node after a follower said how far it has come.
    pub open spec fn heard(
        self,
        stream: (u64, Seq<char>),
        instance: Seq<char>,
        applied: u64,
    ) -> NodeView {
        let changed = !self.ack_process_instances.contains_key(stream)
            || self.ack_process_instances[stream] != instance;
        NodeView {
            ack_process_instances: self.ack_process_instances.insert(stream, instance),
            ack_progress: if self.ack_progress.contains_key(stream) && (changed
                || self.ack_progress[stream] < applied) {
                self.ack_progress.insert(stream, applied)
            } else {
                self.ack_progress
            },
            owner_stream_unacked: if self.owner_stream_unacked.contains_key(stream) {
                self.owner_stream_unacked.insert(
                    stream,
                    still_owed(self.owner_stream_unacked[stream], applied),
                )
            } else {
                self.owner_stream_unacked
            },
            ..self
        }
    }
}

impl DataNode {
    /// Notes how far a follower has come. A process that was not heard before starts over.
    pub fn record_ack(
        &mut self,
        epoch: u64,
        follower: &String,
        process_instance_id: String,
        applied: u64,
    )
        requires
            old(self).wf(),
        ensures
            final(self).wf(),
            final(self).dedup_peak_bytes == old(self).dedup_peak_bytes,
            final(self)@ == old(self)@.heard((epoch, follower@), process_instance_id@, applied),
    {
        let ghost start = *self;
        let ghost instance = process_instance_id@;
        let stream = (epoch, follower.clone());
        let changed = match self.ack_process_instances.get(&stream) {
            Some(previous) => !same_text(previous.as_str(), process_instance_id.as_str()),
            None => true,
        };
        let behind = match self.ack_progress.get(&stream) {
            Some(progress) => changed || *progress < applied,
            None => false,
        };
        let key = (epoch, follower.clone());
        let _ = self.ack_process_instances.insert(key, process_instance_id);
        if behind {
            let key = (epoch, follower.clone());
            let _ = self.ack_progress.insert(key, applied);
        }
        let ghost unacked = self.owner_stream_unacked;
        if let Some(queue) = self.owner_stream_unacked.get_mut(&stream) {
            drop_acknowledged(queue, applied);
        }
        proof {
            let h = start@.heard(stream.id(), instance, applied);
            assert(self@.ack_process_instances =~= h.ack_process_instances);
            assert(self@.ack_progress =~= h.ack_progress);
            assert(self@.owner_stream_unacked =~= h.owner_stream_unacked);
            assert(self@ =~= h);
        }
    }
}

/// A write succeeds only while its owner holds the lease of its epoch, and only once the
/// admitted process of every awaited follower has come to it.
pub proof fn law_only_admitted_processes_acknowledge(
    n: NodeView,
    acks: Seq<AckView>,
    epoch: u64,
    waited_out: bool,
    now: u64,
    i: int,
)
    requires
        n.ack_answer(acks, epoch, waited_out, now) == Some(None::<OperationErrorView>),
        0 <= i < acks.len(),
    ensures
        n.authorized(epoch, now),
        n.admitted_followers.contains_key(acks[i].node_id),
        n.ack_process_instances[(acks[i].epoch, acks[i].node_id)]
            == n.admitted_followers[acks[i].node_id],
        n.ack_progress[(acks[i].epoch, acks[i].node_id)] >= acks[i].sequence,
{
    assert(n.ack_in(acks[i]));
}

/// Once all acknowledgements of a write came in, a retry of it is still answered as it was,
/// and waits for nobody.
pub proof fn law_acknowledged_writes_keep_their_answer(
    n: NodeView,
    m: MutationView,
    version: VersionView,
    acks: Seq<AckView>,
)
    requires
        recall(n.receipts, m) == Recall::Known(version, acks),
    ensures
        recall(n.acknowledged(m.request_id, version).receipts, m) == Recall::Known(
            version,
            Seq::empty(),
        ),
        n.acknowledged(m.request_id, version).records == n.records,
{
    if acks.len() == 0 {
        assert(acks =~= Seq::empty());
    }
}

/// Settling one write leaves what is known of every other.
pub proof fn law_acknowledgements_settle_one_write(
    n: NodeView,
    id: Seq<char>,
    version: VersionView,
    other: MutationView,
)
    requires
        other.request_id != id,
    ensures
        recall(n.acknowledged(id, version).receipts, other) == recall(n.receipts, other),
{
}

} // verus!
