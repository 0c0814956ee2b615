//! Puts and deletes, from the request to the point where only acknowledgements are missing.
use crate::errors::{backpressure, OperationError, OperationErrorView};
use crate::node::{DataNode, NodeView, MAX_PIECE_BYTES};
use crate::node_commit::awaited_acks;
use crate::node_laws::law_read_returns_the_last_put;
use crate::node_queues::{QueuesView, ReplicationQueues};
use crate::node_streams::{at_the_ends, taken_back, PreparedReplication, PreparedView};
use crate::node_write::{
    mutation_fault, replication_bytes, validate_mutation, DecisionView, GetResponseView, Mutation,
    MutationView, WriteDecision,
};
use crate::receipts::{ack_cost, acks_cost, AckView, RequiredAck, IDEMPOTENCY_WINDOW_NANOS};
use crate::records::{RecordVersion, VersionView};
use crate::text::texts;
use crate::topology::SnapshotView;
use crate::topology_laws::{law_replica_count, member_ok};
use crate::views::views;
use vstd::prelude::*;

verus! {

/// How far a write has come.
#[derive(Debug)]
pub enum WriteOutcome {
    /// It fails with this error.
    Refused(OperationError),
    /// It was applied before: it is answered once the first acknowledgements are in.
    Known { version: RecordVersion, required_acks: Vec<RequiredAck> },
    /// It was applied: its entries go to the followers, and it is answered once the
    /// acknowledgements are in.
    Written {
        version: RecordVersion,
        required_acks: Vec<RequiredAck>,
        entries: Vec<PreparedReplication>,
    },
}

pub enum OutcomeView {
    Refused(OperationErrorView),
    Known(VersionView, Seq<AckView>),
    Written(VersionView, Seq<AckView>, Seq<PreparedView>),
}

impl View for WriteOutcome {
    type V = OutcomeView;

    open spec fn view(&self) -> OutcomeView {
        match self {
            WriteOutcome::Refused(e) => OutcomeView::Refused(e@),
            WriteOutcome::Known { version, required_acks } => OutcomeView::Known(
                version@,
                views(required_acks@),
            ),
            WriteOutcome::Written { version, required_acks, entries } => OutcomeView::Written(
                version@,
                views(required_acks@),
                views(entries@),
            ),
        }
    }
}

impl NodeView {
    /// How far a write comes whose followers were found under `ready_epoch`.
    pub open spec fn commit_outcome(
        self,
        queues: QueuesView,
        m: MutationView,
        ready: Seq<Seq<char>>,
        ready_epoch: u64,
        journal: nat,
        now: u64,
    ) -> OutcomeView {
        let numbered = self.purged(now).with_numbering(m.key);
        let entries = self.purged(now).numbering(m.key);
        match self.settle(m, ready, ready_epoch, journal, now) {
            DecisionView::Refused(e) => OutcomeView::Refused(e),
            DecisionView::Retry(version, acks) => OutcomeView::Known(version, acks),
            DecisionView::Proceed => if queues.rejection(
                entries,
                replication_bytes(m, self.node_id),
            ) is Some {
                OutcomeView::Refused(backpressure(self.epoch()))
            } else {
                OutcomeView::Written(
                    numbered.next_version(),
                    awaited_acks(entries, ready, entries.len()),
                    entries,
                )
            },
        }
    }

    /// The node after a write that was decided on and numbered, given whether the queues took
    /// it.
    pub open spec fn committed_state(
        self,
        taken: bool,
        m: MutationView,
        ready: Seq<Seq<char>>,
        now: u64,
        unix: u64,
    ) -> NodeView {
        let numbered = self.purged(now).with_numbering(m.key);
        let entries = self.purged(now).numbering(m.key);
        if taken {
            numbered.written(m, ready, entries, now, unix)
        } else {
            NodeView {
                owner_stream_sequences: taken_back(
                    numbered.owner_stream_sequences,
                    entries,
                    entries.len(),
                ),
                ..numbered
            }
        }
    }

    /// The node after a write that is not applied.
    pub open spec fn declined_state(
        self,
        m: MutationView,
        ready: Seq<Seq<char>>,
        ready_epoch: u64,
        now: u64,
    ) -> NodeView {
        if !self.still_serves(m.key, ready_epoch, now) {
            self
        } else {
            let p = self.purged(now);
            if p.crowded(m, ready) {
                NodeView {
                    owner_dedup_rejections: if p.owner_dedup_rejections < u64::MAX {
                        (p.owner_dedup_rejections + 1) as u64
                    } else {
                        u64::MAX
                    },
                    ..p
                }
            } else {
                p
            }
        }
    }

    /// The node and its queues after a write whose followers were found under `ready_epoch`.
    pub open spec fn commit_effect(
        self,
        queues: QueuesView,
        m: MutationView,
        ready: Seq<Seq<char>>,
        ready_epoch: u64,
        journal: nat,
        now: u64,
        unix: u64,
    ) -> (NodeView, QueuesView) {
        let entries = self.purged(now).numbering(m.key);
        let bytes = replication_bytes(m, self.node_id);
        if self.settle(m, ready, ready_epoch, journal, now) is Proceed {
            (
                self.committed_state(queues.rejection(entries, bytes) is None, m, ready, now, unix),
                queues.asked(entries, bytes),
            )
        } else {
            (self.declined_state(m, ready, ready_epoch, now), queues)
        }
    }

    /// The followers that a write waits for, as far as the node itself knows.
    pub open spec fn wanted(self, key: Seq<u8>, unix: u64) -> Result<
        Seq<Seq<char>>,
        OperationErrorView,
    > {
        let token = self.token(key);
        self.topology.followers_to_await(token, Some(self.known_range(token, unix)))
    }

    /// How far a write comes.
    pub open spec fn write_outcome(
        self,
        queues: QueuesView,
        m: MutationView,
        journal: nat,
        now: u64,
        unix: u64,
    ) -> OutcomeView {
        if mutation_fault(self.limits, m) is Some {
            OutcomeView::Refused(mutation_fault(self.limits, m)->0)
        } else {
            match self.first_look(m, now) {
                DecisionView::Refused(e) => OutcomeView::Refused(e),
                DecisionView::Retry(version, acks) => OutcomeView::Known(version, acks),
                DecisionView::Proceed => match self.wanted(m.key, unix) {
                    Err(e) => OutcomeView::Refused(e),
                    Ok(ready) => self.commit_outcome(queues, m, ready, self.epoch(), journal, now),
                },
            }
        }
    }

    /// The node and its queues after a write.
    pub open spec fn write_effect(
        self,
        queues: QueuesView,
        m: MutationView,
        journal: nat,
        now: u64,
        unix: u64,
    ) -> (NodeView, QueuesView) {
        if mutation_fault(self.limits, m) is Some || self.first_look(m, now) !is Proceed
            || self.wanted(m.key, unix) is Err {
            (self, queues)
        } else {
            self.commit_effect(
                queues,
                m,
                self.wanted(m.key, unix)->Ok_0,
                self.epoch(),
                journal,
                now,
                unix,
            )
        }
    }
}

proof fn lemma_acks_bound(nodes: Seq<Seq<char>>, each: nat)
    requires
        forall|i: int| 0 <= i < nodes.len() ==> ack_cost(#[trigger] nodes[i]) <= each,
    ensures
        acks_cost(nodes) <= nodes.len() * each,
    decreases nodes.len(),
{
    if nodes.len() > 0 {
        let rest = nodes.drop_last();
        assert forall|i: int| 0 <= i < rest.len() implies ack_cost(#[trigger] rest[i]) <= each by {
            assert(rest[i] == nodes[i]);
        }
        lemma_acks_bound(rest, each);
        assert(ack_cost(nodes[nodes.len() - 1]) <= each);
        assert(nodes.len() * each == (nodes.len() - 1) * each + each) by (nonlinear_arith)
            requires
                nodes.len() > 0,
        ;
    } else {
        assert(0 * each == 0) by (nonlinear_arith);
    }
}

/// Waiting for the followers of a token costs little.
proof fn lemma_awaited_cost(t: SnapshotView, token: u64)
    requires
        t.sound(),
        t.placement_fault(token) is None,
    ensures
        acks_cost(t.awaited_followers(token)) <= MAX_PIECE_BYTES,
        acks_cost(Seq::<Seq<char>>::empty()) == 0,
{
    law_replica_count(t, token);
    let r = t.replicas(token);
    let list = t.awaited_followers(token);
    assert forall|i: int| 0 <= i < list.len() implies ack_cost(#[trigger] list[i]) <= 176 by {
        assert(list[i] == r[i + 1]);
        assert(t.is_member(r[i + 1]));
        let k = choose|k: int|
            0 <= k < t.members.len() && (#[trigger] t.members[k]).node_id == list[i];
        assert(member_ok(t.members[k]));
    }
    lemma_acks_bound(list, 176);
    assert(list.len() <= 1024);
    assert(list.len() * 176 <= 1024 * 176) by (nonlinear_arith)
        requires
            list.len() <= 1024,
    ;
}

impl DataNode {
    /// Decides on a write whose followers were found under `ready_epoch` and applies it where
    /// it goes on and the replication queues take it.
    #[verifier::rlimit(40)]
    pub fn commit_write(
        &mut self,
        queues: &mut ReplicationQueues,
        m: Mutation,
        ready: &Vec<String>,
        ready_epoch: u64,
        now: u64,
        unix: u64,
    ) -> (r: WriteOutcome)
        requires
            old(self).wf(),
            old(self)@.room(),
            mutation_fault(old(self).limits, m@) is None,
            acks_cost(texts(ready@)) <= MAX_PIECE_BYTES,
            now + IDEMPOTENCY_WINDOW_NANOS <= u64::MAX,
        ensures
            final(self).wf(),
            final(self).peak_noted(*old(self)),
            old(self).receipts_in_room() ==> final(self).receipts_in_room(),
            r@ == old(self)@.commit_outcome(
                old(queues)@,
                m@,
                texts(ready@),
                ready_epoch,
                old(self).journal_after(m@),
                now,
            ),
            (final(self)@, final(queues)@) == old(self)@.commit_effect(
                old(queues)@,
                m@,
                texts(ready@),
                ready_epoch,
                old(self).journal_after(m@),
                now,
                unix,
            ),
    {
        let (decision, entries) = self.begin_write(&m, ready, ready_epoch, now);
        match decision {
            WriteDecision::Refused(error) => {
                return WriteOutcome::Refused(error);
            },
            WriteDecision::Retry { version, required_acks } => {
                return WriteOutcome::Known { version, required_acks };
            },
            WriteDecision::Proceed => {},
        }
        let bytes = self.replication_mutation_bytes(&m);
        proof {
            assert(at_the_ends(self@.owner_stream_sequences, views(entries@)));
        }
        let reserved = queues.reserve(&entries, bytes).is_ok();
        match self.finish_write(m, &entries, ready, reserved, now, unix) {
            Ok((version, required_acks)) => WriteOutcome::Written {
                version,
                required_acks,
                entries,
            },
            Err(error) => WriteOutcome::Refused(error),
        }
    }

    /// Carries a write as far as it comes without waiting for anybody.
    #[verifier::rlimit(40)]
    pub fn write(
        &mut self,
        queues: &mut ReplicationQueues,
        m: Mutation,
        now: u64,
        unix: u64,
    ) -> (r: WriteOutcome)
        requires
            old(self).wf(),
            old(self)@.room(),
            now + IDEMPOTENCY_WINDOW_NANOS <= u64::MAX,
        ensures
            final(self).wf(),
            final(self).peak_noted(*old(self)),
            old(self).receipts_in_room() ==> final(self).receipts_in_room(),
            r@ == old(self)@.write_outcome(
                old(queues)@,
                m@,
                old(self).journal_after(m@),
                now,
                unix,
            ),
            (final(self)@, final(queues)@) == old(self)@.write_effect(
                old(queues)@,
                m@,
                old(self).journal_after(m@),
                now,
                unix,
            ),
    {
        if let Some(error) = validate_mutation(&self.limits, &m) {
            return WriteOutcome::Refused(error);
        }
        match self.look_at_write(&m, now) {
            WriteDecision::Refused(error) => {
                return WriteOutcome::Refused(error);
            },
            WriteDecision::Retry { version, required_acks } => {
                return WriteOutcome::Known { version, required_acks };
            },
            WriteDecision::Proceed => {},
        }
        match self.ready_followers(m.key.as_slice(), unix) {
            Err(error) => WriteOutcome::Refused(error),
            Ok((epoch, ready)) => {
                proof {
                    let token = self@.token(m@.key);
                    lemma_awaited_cost(self@.topology, token);
                    assert(texts(ready@) == Seq::<Seq<char>>::empty() || texts(ready@)
                        == self@.topology.awaited_followers(token));
                }
                self.commit_write(queues, m, &ready, epoch, now, unix)
            },
        }
    }

    /// Carries a put as far as it comes without waiting for anybody.
    pub fn put(
        &mut self,
        queues: &mut ReplicationQueues,
        key: Vec<u8>,
        value: Vec<u8>,
        request_id: String,
        now: u64,
        unix: u64,
    ) -> (r: WriteOutcome)
        requires
            old(self).wf(),
            old(self)@.room(),
            now + IDEMPOTENCY_WINDOW_NANOS <= u64::MAX,
        ensures
            final(self).wf(),
            final(self).peak_noted(*old(self)),
            old(self).receipts_in_room() ==> final(self).receipts_in_room(),
            ({
                let m = put_of(key@, value@, request_id@);
                let journal = old(self).journal_after(m);
                &&& r@ == old(self)@.write_outcome(old(queues)@, m, journal, now, unix)
                &&& (final(self)@, final(queues)@) == old(self)@.write_effect(
                    old(queues)@,
                    m,
                    journal,
                    now,
                    unix,
                )
            }),
    {
        let m = Mutation { key, value, deleted: false, request_id };
        proof {
            assert(m@ =~= put_of(key@, value@, request_id@));
        }
        self.write(queues, m, now, unix)
    }

    /// Carries a delete as far as it comes without waiting for anybody.
    pub fn delete(
        &mut self,
        queues: &mut ReplicationQueues,
        key: Vec<u8>,
        request_id: String,
        now: u64,
        unix: u64,
    ) -> (r: WriteOutcome)
        requires
            old(self).wf(),
            old(self)@.room(),
            now + IDEMPOTENCY_WINDOW_NANOS <= u64::MAX,
        ensures
            final(self).wf(),
            final(self).peak_noted(*old(self)),
            old(self).receipts_in_room() ==> final(self).receipts_in_room(),
            ({
                let m = delete_of(key@, request_id@);
                let journal = old(self).journal_after(m);
                &&& r@ == old(self)@.write_outcome(old(queues)@, m, journal, now, unix)
                &&& (final(self)@, final(queues)@) == old(self)@.write_effect(
                    old(queues)@,
                    m,
                    journal,
                    now,
                    unix,
                )
            }),
    {
        let m = Mutation { key, value: Vec::new(), deleted: true, request_id };
        proof {
            assert(m@ =~= delete_of(key@, request_id@));
        }
        self.write(queues, m, now, unix)
    }
}

/// A put.
pub open spec fn put_of(key: Seq<u8>, value: Seq<u8>, request_id: Seq<char>) -> MutationView {
    MutationView { key: key, value: value, deleted: false, request_id: request_id }
}

/// A delete.
pub open spec fn delete_of(key: Seq<u8>, request_id: Seq<char>) -> MutationView {
    MutationView { key: key, value: Seq::empty(), deleted: true, request_id: request_id }
}

/// What a put has written, a read gives back, with the version that the put is answered.
pub proof fn law_applied_puts_are_read_back(
    n: NodeView,
    queues: QueuesView,
    m: MutationView,
    journal: nat,
    now: u64,
    unix: u64,
    later: u64,
)
    requires
        !m.deleted,
        n.owner_fault(m.key, later) is None,
    ensures
        n.write_outcome(queues, m, journal, now, unix) matches OutcomeView::Written(version, _, _)
            ==> n.write_effect(queues, m, journal, now, unix).0.read(m.key, later) == (
        GetResponseView {
            value: m.value,
            version: Some(version),
            current_epoch: n.epoch(),
            error: None,
        }),
{
    if n.write_outcome(queues, m, journal, now, unix) is Written {
        let p = n.purged(now).with_numbering(m.key);
        assert(p.topology == n.topology && p.limits == n.limits && p.lease == n.lease && p.node_id
            == n.node_id);
        assert(p.owner_fault(m.key, later) == n.owner_fault(m.key, later));
        let ready = n.wanted(m.key, unix)->Ok_0;
        let entries = n.purged(now).numbering(m.key);
        law_read_returns_the_last_put(p, m, ready, entries, now, unix, later);
    }
}

/// A write that is refused or was applied before changes no record.
pub proof fn law_only_applied_writes_change_records(
    n: NodeView,
    queues: QueuesView,
    m: MutationView,
    journal: nat,
    now: u64,
    unix: u64,
)
    ensures
        n.write_outcome(queues, m, journal, now, unix) !is Written ==> {
            let after = n.write_effect(queues, m, journal, now, unix).0;
            after.records == n.records && after.next_sequence == n.next_sequence && after.sources
                == n.sources
        },
{
}

} // verus!
