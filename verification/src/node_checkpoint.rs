//! How far a stream has come, and how a verified snapshot moves it on.
use crate::errors::{refusal, refused, Code, Status, StatusView};
use crate::node::{fresh_stream, DataNode, FollowerStream, NodeView, StreamView};
use crate::ordmap::MapKey;
use crate::ring::RangeView;
use crate::text::{list_has, same_text};
use crate::topology::{range_views, DerivedRange};
use crate::views::views;
use vstd::prelude::*;

verus! {

/// How far a stream has come, as one of its ends tells it.
#[derive(Debug, Eq, PartialEq)]
pub struct ReplicationProgress {
    pub process_instance_id: String,
    pub stream_sequence: u64,
    pub oldest_unacked_unix_millis: u64,
    pub last_ack_sequence: u64,
    pub last_ack_known: bool,
}

#[verifier::ext_equal]
pub struct ProgressView {
    pub process_instance_id: Seq<char>,
    pub stream_sequence: u64,
    pub oldest_unacked_unix_millis: u64,
    pub last_ack_sequence: u64,
    pub last_ack_known: bool,
}

impl View for ReplicationProgress {
    type V = ProgressView;

    open spec fn view(&self) -> ProgressView {
        ProgressView {
            process_instance_id: self.process_instance_id@,
            stream_sequence: self.stream_sequence,
            oldest_unacked_unix_millis: self.oldest_unacked_unix_millis,
            last_ack_sequence: self.last_ack_sequence,
            last_ack_known: self.last_ack_known,
        }
    }
}

impl NodeView {
    /// Why a question about a stream is not answered, if it is not.
    pub open spec fn progress_fault(
        self,
        epoch: u64,
        owner: Seq<char>,
        follower: Seq<char>,
        given_up: bool,
    ) -> Option<StatusView> {
        if epoch != self.epoch() {
            Some(refusal(Code::FailedPrecondition, "replication progress epoch is stale"@))
        } else if owner.len() == 0 || follower.len() == 0 {
            Some(refusal(Code::InvalidArgument, "replication stream identity is empty"@))
        } else if self.node_id == owner && given_up {
            Some(refusal(Code::FailedPrecondition, "owner replication stream is terminal"@))
        } else if self.node_id != owner && self.node_id != follower {
            Some(
                refusal(Code::FailedPrecondition, "node is not part of this replication stream"@),
            )
        } else {
            None
        }
    }

    /// How far a stream of the installed epoch has come.
    pub open spec fn progress(self, owner: Seq<char>, follower: Seq<char>) -> ProgressView {
        let sending = (self.epoch(), follower);
        let receiving = (self.epoch(), owner);
        if self.node_id == owner {
            let head = if self.owner_stream_sequences.contains_key(sending) {
                self.owner_stream_sequences[sending]
            } else {
                0
            };
            ProgressView {
                process_instance_id: self.process_instance_id,
                stream_sequence: head,
                oldest_unacked_unix_millis: if self.owner_stream_unacked.contains_key(sending)
                    && self.owner_stream_unacked[sending].len() > 0 {
                    self.owner_stream_unacked[sending][0].1
                } else {
                    0
                },
                last_ack_sequence: if self.ack_progress.contains_key(sending) {
                    self.ack_progress[sending]
                } else {
                    0
                },
                last_ack_known: head == 0 || self.ack_progress.contains_key(sending),
            }
        } else {
            ProgressView {
                process_instance_id: self.process_instance_id,
                stream_sequence: if self.follower_streams.contains_key(receiving) {
                    self.follower_streams[receiving].applied_sequence
                } else {
                    0
                },
                oldest_unacked_unix_millis: 0,
                last_ack_sequence: 0,
                last_ack_known: false,
            }
        }
    }
}

impl DataNode {
    /// Tells how far a stream has come. `given_up` says whether this node has stopped
    /// sending on it.
    pub fn get_replication_progress(
        &self,
        topology_epoch: u64,
        owner_node_id: &String,
        follower_node_id: &String,
        given_up: bool,
    ) -> (r: Result<ReplicationProgress, Status>)
        ensures
            refused(r) == self@.progress_fault(
                topology_epoch,
                owner_node_id@,
                follower_node_id@,
                given_up,
            ),
            r matches Ok(p) ==> p@ == self@.progress(owner_node_id@, follower_node_id@),
    {
        let epoch = self.topology.epoch;
        if topology_epoch != epoch {
            return Err(
                Status::new(Code::FailedPrecondition, "replication progress epoch is stale"),
            );
        }
        if owner_node_id.as_str().is_empty() || follower_node_id.as_str().is_empty() {
            return Err(Status::new(Code::InvalidArgument, "replication stream identity is empty"));
        }
        if same_text(self.node_id.as_str(), owner_node_id.as_str()) {
            if given_up {
                return Err(
                    Status::new(Code::FailedPrecondition, "owner replication stream is terminal"),
                );
            }
            let stream = (epoch, follower_node_id.clone());
            let head = match self.owner_stream_sequences.get(&stream) {
                Some(sequence) => *sequence,
                None => 0,
            };
            let oldest = match self.owner_stream_unacked.get(&stream) {
                Some(queue) => if queue.len() > 0 {
                    queue[0].1
                } else {
                    0
                },
                None => 0,
            };
            let acked = self.ack_progress.get(&stream);
            let last = match acked {
                Some(sequence) => *sequence,
                None => 0,
            };
            return Ok(
                ReplicationProgress {
                    process_instance_id: self.process_instance_id.clone(),
                    stream_sequence: head,
                    oldest_unacked_unix_millis: oldest,
                    last_ack_sequence: last,
                    last_ack_known: head == 0 || acked.is_some(),
                },
            );
        }
        if !same_text(self.node_id.as_str(), follower_node_id.as_str()) {
            return Err(
                Status::new(
                    Code::FailedPrecondition,
                    "node is not part of this replication stream",
                ),
            );
        }
        let stream = (epoch, owner_node_id.clone());
        let applied = match self.follower_streams.get(&stream) {
            Some(stream) => stream.applied_sequence,
            None => 0,
        };
        Ok(
            ReplicationProgress {
                process_instance_id: self.process_instance_id.clone(),
                stream_sequence: applied,
                oldest_unacked_unix_millis: 0,
                last_ack_sequence: 0,
                last_ack_known: false,
            },
        )
    }
}

/// The intervals among the first `n` ranges that `node` follows `owner` on.
pub open spec fn followed_intervals(
    ranges: Seq<RangeView>,
    owner: Seq<char>,
    node: Seq<char>,
    n: nat,
) -> Seq<(u64, u64)>
    decreases n,
{
    if n == 0 {
        Seq::empty()
    } else {
        let rest = followed_intervals(ranges, owner, node, (n - 1) as nat);
        let r = ranges[n - 1];
        if r.owner_node_id == owner && r.follower_node_ids.contains(node) {
            rest.push((r.start_exclusive, r.end_inclusive))
        } else {
            rest
        }
    }
}

fn follows_on(ranges: &Vec<DerivedRange>, owner: &str, node: &str) -> (r: Vec<(u64, u64)>)
    ensures
        r@ == followed_intervals(range_views(ranges@), owner@, node@, ranges@.len()),
{
    let ghost s = range_views(ranges@);
    let mut r: Vec<(u64, u64)> = Vec::new();
    let mut i: usize = 0;
    while i < ranges.len()
        invariant
            s == range_views(ranges@),
            i <= ranges@.len(),
            r@ == followed_intervals(s, owner@, node@, i as nat),
        decreases ranges.len() - i,
    {
        let range = &ranges[i];
        proof {
            assert(s[i as int] == range@);
        }
        if same_text(range.owner_node_id.as_str(), owner) && list_has(
            &range.follower_node_ids,
            node,
        ) {
            r.push((range.start_exclusive, range.end_inclusive));
        }
        i = i + 1;
    }
    r
}

/// The name of a range that is being moved.
#[derive(Debug, Eq, PartialEq)]
pub struct RangeControl {
    pub change_id: String,
    pub range_id: String,
}

impl View for RangeControl {
    type V = (Seq<char>, Seq<char>);

    open spec fn view(&self) -> (Seq<char>, Seq<char>) {
        (self.change_id@, self.range_id@)
    }
}

impl RangeControl {
    pub fn key(&self) -> (r: (String, String))
        ensures
            r.id() == self@,
    {
        (self.change_id.clone(), self.range_id.clone())
    }
}

/// A snapshot of a whole stream, taken at `stream_sequence`.
#[derive(Debug, Eq, PartialEq)]
pub struct ReplicationCheckpoint {
    pub topology_epoch: u64,
    pub owner_node_id: String,
    pub follower_node_id: String,
    pub stream_sequence: u64,
    pub verified_ranges: Vec<RangeControl>,
}

#[verifier::ext_equal]
pub struct CheckpointView {
    pub topology_epoch: u64,
    pub owner_node_id: Seq<char>,
    pub follower_node_id: Seq<char>,
    pub stream_sequence: u64,
    pub verified_ranges: Seq<(Seq<char>, Seq<char>)>,
}

impl View for ReplicationCheckpoint {
    type V = CheckpointView;

    open spec fn view(&self) -> CheckpointView {
        CheckpointView {
            topology_epoch: self.topology_epoch,
            owner_node_id: self.owner_node_id@,
            follower_node_id: self.follower_node_id@,
            stream_sequence: self.stream_sequence,
            verified_ranges: views(self.verified_ranges@),
        }
    }
}

fn pairs_have(list: &Vec<(u64, u64)>, pair: (u64, u64)) -> (r: bool)
    ensures
        r == list@.contains(pair),
{
    let mut i: usize = 0;
    while i < list.len()
        invariant
            i <= list@.len(),
            forall|j: int| 0 <= j < i ==> list@[j] != pair,
        decreases list.len() - i,
    {
        let (a, b) = list[i];
        if a == pair.0 && b == pair.1 {
            proof {
                assert(list@[i as int] == pair);
            }
            return true;
        }
        i = i + 1;
    }
    false
}

impl NodeView {
    /// The intervals on which this node follows `owner`.
    pub open spec fn stream_intervals(self, owner: Seq<char>) -> Seq<(u64, u64)> {
        followed_intervals(
            self.topology.ranges(),
            owner,
            self.node_id,
            self.topology.ranges().len(),
        )
    }

    /// The interval of a range that is being taken over.
    pub open spec fn taken_interval(self, key: (Seq<char>, Seq<char>)) -> (u64, u64) {
        (self.destinations[key].range.start_exclusive, self.destinations[key].range.end_inclusive)
    }

    /// The intervals of ranges that are being taken over.
    pub open spec fn taken_intervals(self, keys: Seq<(Seq<char>, Seq<char>)>) -> Seq<(u64, u64)> {
        Seq::new(keys.len(), |i: int| self.taken_interval(keys[i]))
    }

    /// What is wrong with the first range from `i` on that is not a verified part of the
    /// stream of `owner`, if there is one.
    pub open spec fn part_fault(
        self,
        owner: Seq<char>,
        keys: Seq<(Seq<char>, Seq<char>)>,
        i: nat,
    ) -> Option<StatusView>
        decreases keys.len() - i,
    {
        if i >= keys.len() {
            None
        } else {
            let k = keys[i as int];
            let d = self.destinations[k];
            if !self.destinations.contains_key(k) {
                Some(refusal(Code::FailedPrecondition, "checkpoint range was not prepared"@))
            } else if !d.committed || d.range.source_node_id != owner
                || d.range.destination_node_id != self.node_id || self.taken_intervals(
                keys,
            ).subrange(0, i as int).contains(self.taken_interval(k)) {
                Some(
                    refusal(
                        Code::FailedPrecondition,
                        "checkpoint contains an unverified or duplicate range"@,
                    ),
                )
            } else {
                self.part_fault(owner, keys, i + 1)
            }
        }
    }

    /// The stream of an owner in the installed epoch.
    pub open spec fn owner_stream(self, owner: Seq<char>) -> StreamView {
        if self.follower_streams.contains_key((self.epoch(), owner)) {
            self.follower_streams[(self.epoch(), owner)]
        } else {
            fresh_stream()
        }
    }

    /// Why a checkpoint is refused, if it is.
    pub open spec fn checkpoint_fault(self, c: CheckpointView) -> Option<StatusView> {
        let expected = self.stream_intervals(c.owner_node_id);
        let actual = self.taken_intervals(c.verified_ranges);
        if c.topology_epoch != self.epoch() || c.follower_node_id != self.node_id {
            Some(refusal(Code::FailedPrecondition, "checkpoint does not match follower epoch"@))
        } else if expected.len() == 0 || c.verified_ranges.len() != expected.len() {
            Some(
                refusal(
                    Code::FailedPrecondition,
                    "checkpoint does not cover the full follower stream"@,
                ),
            )
        } else if self.part_fault(c.owner_node_id, c.verified_ranges, 0) is Some {
            self.part_fault(c.owner_node_id, c.verified_ranges, 0)
        } else if actual.to_set() != expected.to_set() {
            Some(refusal(Code::FailedPrecondition, "checkpoint has incomplete stream coverage"@))
        } else if c.stream_sequence < self.owner_stream(c.owner_node_id).applied_sequence {
            Some(
                refusal(
                    Code::FailedPrecondition,
                    "checkpoint would rewind the follower stream"@,
                ),
            )
        } else {
            None
        }
    }

    /// The node after a checkpoint.
    pub open spec fn checkpointed(self, c: CheckpointView) -> NodeView {
        NodeView {
            follower_streams: self.follower_streams.insert(
                (c.topology_epoch, c.owner_node_id),
                StreamView {
                    applied_sequence: c.stream_sequence,
                    checkpoint_sequence: c.stream_sequence,
                    ..self.owner_stream(c.owner_node_id)
                },
            ),
            ..self
        }
    }
}

/// Both lists hold the same pairs.
fn same_pairs(a: &Vec<(u64, u64)>, b: &Vec<(u64, u64)>) -> (r: bool)
    ensures
        r == (a@.to_set() == b@.to_set()),
{
    let mut i: usize = 0;
    while i < a.len()
        invariant
            i <= a@.len(),
            forall|j: int| 0 <= j < i ==> b@.contains(#[trigger] a@[j]),
        decreases a.len() - i,
    {
        if !pairs_have(b, a[i]) {
            proof {
                assert(a@.contains(a@[i as int]));
                assert(a@.to_set().contains(a@[i as int]));
                assert(!b@.to_set().contains(a@[i as int]));
            }
            return false;
        }
        i = i + 1;
    }
    let mut i: usize = 0;
    while i < b.len()
        invariant
            i <= b@.len(),
            forall|j: int| 0 <= j < i ==> a@.contains(#[trigger] b@[j]),
        decreases b.len() - i,
    {
        if !pairs_have(a, b[i]) {
            proof {
                assert(b@.contains(b@[i as int]));
                assert(b@.to_set().contains(b@[i as int]));
                assert(!a@.to_set().contains(b@[i as int]));
            }
            return false;
        }
        i = i + 1;
    }
    proof {
        assert(a@.to_set() =~= b@.to_set());
    }
    true
}

impl DataNode {
    /// Gathers the intervals of a checkpoint, each of them verified.
    fn checkpoint_intervals(&self, c: &ReplicationCheckpoint) -> (r: Result<
        Vec<(u64, u64)>,
        Status,
    >)
        ensures
            refused(r) == self@.part_fault(c@.owner_node_id, c@.verified_ranges, 0),
            r matches Ok(list) ==> list@ == self@.taken_intervals(c@.verified_ranges),
    {
        let ghost keys = c@.verified_ranges;
        let ghost owner = c@.owner_node_id;
        let ghost all = self@.taken_intervals(keys);
        let mut actual: Vec<(u64, u64)> = Vec::new();
        let mut i: usize = 0;
        proof {
            assert(actual@ =~= all.subrange(0, 0));
        }
        while i < c.verified_ranges.len()
            invariant
                keys == views(c.verified_ranges@),
                owner == c.owner_node_id@,
                all == self@.taken_intervals(keys),
                i <= keys.len(),
                actual@ == all.subrange(0, i as int),
                self@.part_fault(owner, keys, 0) == self@.part_fault(owner, keys, i as nat),
            decreases keys.len() - i,
        {
            let key = c.verified_ranges[i].key();
            proof {
                assert(keys[i as int] == key.id());
            }
            let destination = match self.destinations.get(&key) {
                Some(destination) => destination,
                None => {
                    return Err(
                        Status::new(Code::FailedPrecondition, "checkpoint range was not prepared"),
                    );
                },
            };
            let interval = (destination.range.start_exclusive, destination.range.end_inclusive);
            proof {
                assert(self@.destinations[keys[i as int]] == destination@);
                assert(interval == self@.taken_interval(keys[i as int]));
            }
            if !destination.committed || !same_text(
                destination.range.source_node_id.as_str(),
                c.owner_node_id.as_str(),
            ) || !same_text(
                destination.range.destination_node_id.as_str(),
                self.node_id.as_str(),
            ) || pairs_have(&actual, interval) {
                return Err(
                    Status::new(
                        Code::FailedPrecondition,
                        "checkpoint contains an unverified or duplicate range",
                    ),
                );
            }
            actual.push(interval);
            i = i + 1;
            proof {
                assert(actual@ =~= all.subrange(0, i as int));
            }
        }
        proof {
            assert(all.subrange(0, all.len() as int) =~= all);
        }
        Ok(actual)
    }

    /// Moves a stream on to a verified snapshot of all that it covers. Older writes still
    /// under way are then known to the snapshot.
    pub fn install_replication_checkpoint(&mut self, c: &ReplicationCheckpoint) -> (r: Result<
        ReplicationProgress,
        Status,
    >)
        requires
            old(self).wf(),
        ensures
            final(self).wf(),
            final(self).dedup_peak_bytes == old(self).dedup_peak_bytes,
            refused(r) == old(self)@.checkpoint_fault(c@),
            r matches Ok(p) ==> p@ == (ProgressView {
                process_instance_id: old(self)@.process_instance_id,
                stream_sequence: c@.stream_sequence,
                oldest_unacked_unix_millis: 0,
                last_ack_sequence: 0,
                last_ack_known: false,
            }),
            final(self)@ == if r is Ok {
                old(self)@.checkpointed(c@)
            } else {
                old(self)@
            },
    {
        let ghost start = *self;
        if c.topology_epoch != self.topology.epoch || !same_text(
            c.follower_node_id.as_str(),
            self.node_id.as_str(),
        ) {
            return Err(
                Status::new(Code::FailedPrecondition, "checkpoint does not match follower epoch"),
            );
        }
        let ranges = match self.topology.derived_ranges() {
            Ok(ranges) => ranges,
            Err(_) => Vec::new(),
        };
        let expected = follows_on(&ranges, c.owner_node_id.as_str(), self.node_id.as_str());
        proof {
            assert(expected@ == start@.stream_intervals(c@.owner_node_id));
        }
        if expected.len() == 0 || c.verified_ranges.len() != expected.len() {
            return Err(
                Status::new(
                    Code::FailedPrecondition,
                    "checkpoint does not cover the full follower stream",
                ),
            );
        }
        let actual = match self.checkpoint_intervals(c) {
            Ok(actual) => actual,
            Err(status) => {
                return Err(status);
            },
        };
        if !same_pairs(&actual, &expected) {
            return Err(
                Status::new(Code::FailedPrecondition, "checkpoint has incomplete stream coverage"),
            );
        }
        let key = (c.topology_epoch, c.owner_node_id.clone());
        let mut stream = match self.follower_streams.remove(&key) {
            Some(stream) => stream,
            None => FollowerStream::new(),
        };
        let rewinds = c.stream_sequence < stream.applied_sequence;
        if !rewinds {
            stream.applied_sequence = c.stream_sequence;
            stream.checkpoint_sequence = c.stream_sequence;
        }
        let _ = self.follower_streams.insert(key, stream);
        if rewinds {
            proof {
                assert(self@.follower_streams =~= start@.follower_streams);
                assert(self@ =~= start@);
            }
            return Err(
                Status::new(
                    Code::FailedPrecondition,
                    "checkpoint would rewind the follower stream",
                ),
            );
        }
        proof {
            assert(self@.follower_streams =~= start@.checkpointed(c@).follower_streams);
            assert(self@ =~= start@.checkpointed(c@));
        }
        Ok(
            ReplicationProgress {
                process_instance_id: self.process_instance_id.clone(),
                stream_sequence: c.stream_sequence,
                oldest_unacked_unix_millis: 0,
                last_ack_sequence: 0,
                last_ack_known: false,
            },
        )
    }
}

} // verus!
