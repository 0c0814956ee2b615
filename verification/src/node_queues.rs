//! Room for writes on their way to followers.
use crate::node::MAX_PENDING_REPLICATION_BYTES;
use crate::node_receipts::lemma_shown_kept;
use crate::node_streams::{PreparedReplication, PreparedView};
use crate::ordmap::{kept, shown, MapKey, SortedMap};
use crate::views::views;
use vstd::prelude::*;

verus! {

/// How many writes wait on one stream at most.
pub const REPLICATION_STREAM_QUEUE_CAPACITY: u64 = 32;

/// Why a write finds no room.
#[derive(Clone, Copy, Debug, Eq, PartialEq, Structural)]
pub enum Rejection {
    /// Writes under way take all the room there is.
    RetainedBudget,
    /// A stream was given up.
    FailedStream,
    /// A stream has too many writes waiting.
    StreamQueue,
}

/// Writes on their way to followers, by epoch and follower.
pub struct ReplicationQueues {
    pub waiting: SortedMap<(u64, String), u64>,
    pub failed: SortedMap<(u64, String), bool>,
    pub retained_bytes: usize,
    pub rejections: u64,
    pub peak_waiting: u64,
}

#[verifier::ext_equal]
pub struct QueuesView {
    pub waiting: Map<(u64, Seq<char>), u64>,
    pub failed: Map<(u64, Seq<char>), bool>,
    pub retained_bytes: usize,
    pub rejections: u64,
    pub peak_waiting: u64,
}

impl View for ReplicationQueues {
    type V = QueuesView;

    open spec fn view(&self) -> QueuesView {
        QueuesView {
            waiting: shown(self.waiting),
            failed: shown(self.failed),
            retained_bytes: self.retained_bytes,
            rejections: self.rejections,
            peak_waiting: self.peak_waiting,
        }
    }
}

/// One more, as far as the counter reaches.
pub open spec fn one_more(n: u64) -> u64 {
    if n < u64::MAX {
        (n + 1) as u64
    } else {
        u64::MAX
    }
}

impl QueuesView {
    /// How many writes wait on a stream.
    pub open spec fn length(self, stream: (u64, Seq<char>)) -> u64 {
        if self.waiting.contains_key(stream) {
            self.waiting[stream]
        } else {
            0
        }
    }

    /// The first stream from `i` on that cannot take its write, with the reason.
    pub open spec fn blocked_from(self, entries: Seq<PreparedView>, i: nat) -> Option<(nat, Rejection)>
        decreases entries.len() - i,
    {
        if i >= entries.len() {
            None
        } else {
            let stream = entries[i as int].stream();
            if self.failed.contains_key(stream) {
                Some((i, Rejection::FailedStream))
            } else if self.length(stream) >= REPLICATION_STREAM_QUEUE_CAPACITY {
                Some((i, Rejection::StreamQueue))
            } else {
                self.blocked_from(entries, i + 1)
            }
        }
    }

    /// Why these writes find no room, if they do not.
    pub open spec fn rejection(self, entries: Seq<PreparedView>, bytes: nat) -> Option<Rejection> {
        if entries.len() > 0 && self.retained_bytes + bytes > MAX_PENDING_REPLICATION_BYTES {
            Some(Rejection::RetainedBudget)
        } else {
            match self.blocked_from(entries, 0) {
                Some((_, reason)) => Some(reason),
                None => None,
            }
        }
    }

    /// The longest that a stream was, after the first `n` of these writes.
    pub open spec fn peak_with(self, entries: Seq<PreparedView>, n: nat) -> u64
        decreases n,
    {
        if n == 0 {
            self.peak_waiting
        } else {
            let rest = self.peak_with(entries, (n - 1) as nat);
            let length = one_more(self.length(entries[n - 1].stream()));
            if rest < length {
                length
            } else {
                rest
            }
        }
    }

    /// What waits after the first `n` of these writes.
    pub open spec fn waiting_with(self, entries: Seq<PreparedView>, n: nat) -> Map<
        (u64, Seq<char>),
        u64,
    >
        decreases n,
    {
        if n == 0 {
            self.waiting
        } else {
            self.waiting_with(entries, (n - 1) as nat).insert(
                entries[n - 1].stream(),
                one_more(self.length(entries[n - 1].stream())),
            )
        }
    }

    /// The queues after these writes asked for room: all of them get it or none does.
    pub open spec fn asked(self, entries: Seq<PreparedView>, bytes: nat) -> QueuesView {
        match self.rejection(entries, bytes) {
            Some(reason) => QueuesView {
                rejections: one_more(self.rejections),
                peak_waiting: if reason is RetainedBudget {
                    self.peak_waiting
                } else {
                    self.peak_with(entries, (self.blocked_from(entries, 0)->0).0)
                },
                ..self
            },
            None => QueuesView {
                waiting: self.waiting_with(entries, entries.len()),
                retained_bytes: if entries.len() > 0 {
                    (self.retained_bytes + bytes) as usize
                } else {
                    self.retained_bytes
                },
                peak_waiting: self.peak_with(entries, entries.len()),
                ..self
            },
        }
    }
}

impl QueuesView {
    /// No stream and no sum of writes under way is over its limit.
    pub open spec fn bounded(self) -> bool {
        &&& self.retained_bytes <= MAX_PENDING_REPLICATION_BYTES
        &&& forall|stream: (u64, Seq<char>)| #[trigger]
            self.waiting.contains_key(stream) ==> self.waiting[stream]
                <= REPLICATION_STREAM_QUEUE_CAPACITY
    }
}

impl ReplicationQueues {
    pub fn new() -> (r: Self)
        ensures
            r@ == (QueuesView {
                waiting: Map::empty(),
                failed: Map::empty(),
                retained_bytes: 0,
                rejections: 0,
                peak_waiting: 0,
            }),
            r@.bounded(),
    {
        let r = ReplicationQueues {
            waiting: SortedMap::new(),
            failed: SortedMap::new(),
            retained_bytes: 0,
            rejections: 0,
            peak_waiting: 0,
        };
        proof {
            assert(r@.waiting =~= Map::empty());
            assert(r@.failed =~= Map::empty());
        }
        r
    }

    fn length_of(&self, stream: &(u64, String)) -> (r: u64)
        ensures
            r == self@.length(stream.id()),
    {
        match self.waiting.get(stream) {
            Some(n) => *n,
            None => 0,
        }
    }

    /// Makes room for one write to each of its followers, `bytes` large. All followers get it
    /// or none does.
    pub fn reserve(&mut self, entries: &Vec<PreparedReplication>, bytes: usize) -> (r: Result<
        (),
        Rejection,
    >)
        requires
            forall|i: int, j: int|
                0 <= i < j < entries@.len() ==> (#[trigger] views(entries@)[i]).stream() != (
                #[trigger] views(entries@)[j]).stream(),
        ensures
            match old(self)@.rejection(views(entries@), bytes as nat) {
                Some(reason) => r == Err::<(), Rejection>(reason),
                None => r is Ok,
            },
            final(self)@ == old(self)@.asked(views(entries@), bytes as nat),
            old(self)@.bounded() ==> final(self)@.bounded(),
    {
        let ghost q = self@;
        let ghost e = views(entries@);
        proof {
            if q.bounded() {
                law_queues_stay_bounded(q, e, bytes as nat);
            }
        }
        if entries.len() > 0 && (self.retained_bytes > MAX_PENDING_REPLICATION_BYTES || bytes
            > MAX_PENDING_REPLICATION_BYTES - self.retained_bytes) {
            self.rejections = self.rejections.saturating_add(1);
            return Err(Rejection::RetainedBudget);
        }
        let mut i: usize = 0;
        while i < entries.len()
            invariant
                q == old(self)@,
                e == views(entries@),
                i <= entries@.len(),
                entries@.len() > 0 ==> q.retained_bytes + bytes <= MAX_PENDING_REPLICATION_BYTES,
                q.blocked_from(e, 0) == q.blocked_from(e, i as nat),
                self@ == (QueuesView { peak_waiting: q.peak_with(e, i as nat), ..q }),
            decreases entries.len() - i,
        {
            let stream = (entries[i].topology_epoch, entries[i].follower_node_id.clone());
            proof {
                assert(e[i as int] == entries@[i as int]@);
                assert(stream.id() == e[i as int].stream());
            }
            if self.failed.contains(&stream) {
                self.rejections = self.rejections.saturating_add(1);
                return Err(Rejection::FailedStream);
            }
            let length = self.length_of(&stream);
            proof {
                assert(length == q.length(stream.id()));
            }
            if length >= REPLICATION_STREAM_QUEUE_CAPACITY {
                self.rejections = self.rejections.saturating_add(1);
                return Err(Rejection::StreamQueue);
            }
            if self.peak_waiting < length + 1 {
                self.peak_waiting = length + 1;
            }
            i = i + 1;
        }
        let ghost peak = self.peak_waiting;
        let mut i: usize = 0;
        while i < entries.len()
            invariant
                q == old(self)@,
                e == views(entries@),
                i <= entries@.len(),
                forall|a: int, b: int|
                    0 <= a < b < e.len() ==> (#[trigger] e[a]).stream() != (
                    #[trigger] e[b]).stream(),
                forall|k: (u64, Seq<char>)|
                    (forall|j: int| 0 <= j < i ==> (#[trigger] e[j]).stream() != k) ==> (
                    #[trigger] self@.length(k) == q.length(k)),
                self@ == (QueuesView {
                    peak_waiting: peak,
                    waiting: q.waiting_with(e, i as nat),
                    ..q
                }),
            decreases entries.len() - i,
        {
            let ghost before = self@;
            let stream = (entries[i].topology_epoch, entries[i].follower_node_id.clone());
            proof {
                assert(e[i as int] == entries@[i as int]@);
                assert(stream.id() == e[i as int].stream());
                assert(forall|j: int| 0 <= j < i ==> (#[trigger] e[j]).stream() != stream.id());
                assert(before.length(stream.id()) == q.length(stream.id()));
            }
            let length = self.length_of(&stream).saturating_add(1);
            let _ = self.waiting.insert(stream, length);
            proof {
                assert(self@.waiting =~= q.waiting_with(e, (i + 1) as nat));
                assert forall|k: (u64, Seq<char>)|
                    (forall|j: int| 0 <= j < i + 1 ==> (#[trigger] e[j]).stream() != k) implies (
                #[trigger] self@.length(k) == q.length(k)) by {
                    assert(e[i as int].stream() != k);
                    assert(before.length(k) == q.length(k));
                }
            }
            i = i + 1;
        }
        if entries.len() > 0 {
            self.retained_bytes = self.retained_bytes + bytes;
        }
        proof {
            assert(self@ =~= q.asked(e, bytes as nat));
        }
        Ok(())
    }

    /// Takes a write off its queue.
    pub fn take(&mut self, epoch: u64, follower: &String)
        ensures
            final(self)@ == if old(self)@.length((epoch, follower@)) > 0 {
                QueuesView {
                    waiting: old(self)@.waiting.insert(
                        (epoch, follower@),
                        (old(self)@.waiting[(epoch, follower@)] - 1) as u64,
                    ),
                    ..old(self)@
                }
            } else {
                old(self)@
            },
            old(self)@.bounded() ==> final(self)@.bounded(),
    {
        let ghost q = self@;
        let stream = (epoch, follower.clone());
        let length = self.length_of(&stream);
        if length > 0 {
            let _ = self.waiting.insert(stream, length - 1);
            proof {
                assert(self@.waiting =~= q.waiting.insert((epoch, follower@), (length - 1) as u64));
            }
        }
    }

    /// Frees the room of a write that all its followers are done with.
    pub fn release(&mut self, bytes: usize)
        ensures
            final(self)@ == (QueuesView {
                retained_bytes: if bytes <= old(self)@.retained_bytes {
                    (old(self)@.retained_bytes - bytes) as usize
                } else {
                    0
                },
                ..old(self)@
            }),
            old(self)@.bounded() ==> final(self)@.bounded(),
    {
        let ghost q = self@;
        self.retained_bytes = self.retained_bytes.saturating_sub(bytes);
        proof {
            assert(self@.waiting == q.waiting);
        }
    }

    /// Gives a stream up.
    pub fn fail(&mut self, epoch: u64, follower: &String)
        ensures
            final(self)@ == (QueuesView {
                failed: old(self)@.failed.insert((epoch, follower@), true),
                ..old(self)@
            }),
            old(self)@.bounded() ==> final(self)@.bounded(),
    {
        let ghost q = self@;
        let stream = (epoch, follower.clone());
        let _ = self.failed.insert(stream, true);
        proof {
            assert(self@.failed =~= q.failed.insert((epoch, follower@), true));
        }
    }

    /// Tells whether a stream was given up.
    pub fn has_failed(&self, epoch: u64, follower: &String) -> (r: bool)
        ensures
            r == self@.failed.contains_key((epoch, follower@)),
    {
        let stream = (epoch, follower.clone());
        self.failed.contains(&stream)
    }

    /// Forgets the streams of other epochs.
    pub fn prune_epoch(&mut self, epoch: u64)
        ensures
            final(self)@ == (QueuesView {
                waiting: kept(
                    old(self)@.waiting,
                    |k: (u64, Seq<char>), n: u64| k.0 == epoch,
                ),
                failed: kept(old(self)@.failed, |k: (u64, Seq<char>), f: bool| k.0 == epoch),
                ..old(self)@
            }),
            old(self)@.bounded() ==> final(self)@.bounded(),
    {
        let ghost start = *self;
        let keep = |k: &(u64, String), n: &u64| -> (b: bool)
            ensures
                b == (k.id().0 == epoch),
        { k.0 == epoch };
        self.waiting.retain(keep, Ghost(|k: (u64, Seq<char>), n: u64| k.0 == epoch));
        let keep = |k: &(u64, String), f: &bool| -> (b: bool)
            ensures
                b == (k.id().0 == epoch),
        { k.0 == epoch };
        self.failed.retain(keep, Ghost(|k: (u64, Seq<char>), f: bool| k.0 == epoch));
        proof {
            lemma_shown_kept(
                start.waiting,
                self.waiting,
                |k: (u64, Seq<char>), n: u64| k.0 == epoch,
                |k: (u64, Seq<char>), n: u64| k.0 == epoch,
            );
            lemma_shown_kept(
                start.failed,
                self.failed,
                |k: (u64, Seq<char>), f: bool| k.0 == epoch,
                |k: (u64, Seq<char>), f: bool| k.0 == epoch,
            );
            assert(self@.waiting =~= kept(
                start@.waiting,
                |k: (u64, Seq<char>), n: u64| k.0 == epoch,
            ));
            assert(self@.failed =~= kept(
                start@.failed,
                |k: (u64, Seq<char>), f: bool| k.0 == epoch,
            ));
        }
    }
}

proof fn lemma_open_streams(q: QueuesView, entries: Seq<PreparedView>, from: nat, i: nat)
    requires
        q.blocked_from(entries, from) is None,
        from <= i < entries.len(),
    ensures
        q.length(entries[i as int].stream()) < REPLICATION_STREAM_QUEUE_CAPACITY,
    decreases i - from,
{
    if from < i {
        lemma_open_streams(q, entries, from + 1, i);
    }
}

proof fn lemma_waiting_bounded(q: QueuesView, entries: Seq<PreparedView>, n: nat)
    requires
        q.bounded(),
        q.blocked_from(entries, 0) is None,
        n <= entries.len(),
    ensures
        forall|stream: (u64, Seq<char>)| #[trigger]
            q.waiting_with(entries, n).contains_key(stream) ==> q.waiting_with(entries, n)[stream]
                <= REPLICATION_STREAM_QUEUE_CAPACITY,
    decreases n,
{
    if n > 0 {
        lemma_waiting_bounded(q, entries, (n - 1) as nat);
        lemma_open_streams(q, entries, 0, (n - 1) as nat);
        let before = q.waiting_with(entries, (n - 1) as nat);
        let after = q.waiting_with(entries, n);
        assert forall|stream: (u64, Seq<char>)| #[trigger] after.contains_key(stream) implies
            after[stream] <= REPLICATION_STREAM_QUEUE_CAPACITY by {
            if stream != entries[n - 1].stream() {
                assert(before.contains_key(stream));
            }
        }
    }
}

/// Whatever room is asked for, no stream gets more writes waiting than it may have, and what
/// is under way never exceeds its limit.
pub proof fn law_queues_stay_bounded(q: QueuesView, entries: Seq<PreparedView>, bytes: nat)
    requires
        q.bounded(),
    ensures
        q.asked(entries, bytes).bounded(),
{
    if q.rejection(entries, bytes) is None {
        lemma_waiting_bounded(q, entries, entries.len());
    }
}

} // verus!
